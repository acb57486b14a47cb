//! The lockstep engine room, sans-io and signature-checked.
//!
//! Every frame on the wire is a signed `Envelope`. The rules, enforced here before anything
//! reaches the simulation:
//!   * the BIP-340 signature must verify against the envelope's sender key;
//!   * `seq` must be strictly increasing per sender (replay shield);
//!   * a link is locked to the first key that speaks on it;
//!   * `Cmds{pid}` requires `roster[pid].key == sender`: you cannot issue orders for a
//!     settlement whose key you don't hold (bots carry the driving host's key);
//!   * Freeze / PeerJoined / Left are only honored from the host's key.
//! Anything failing a rule is dropped silently.
//!
//! Each method is the function of the same name in `state`, on the session's view.

use crate::command::{commands_view, dup_commands, Command, CommandV, Orders};
use crate::crypto::{is_pair, key_eq, unix_millis, Identity, PubKey, ZERO_KEY};
use crate::protocol::{
    backfill_view, envelope_of, envelope_valid, peers_view, put_msg, sealed, Envelope, Msg, PeerInfo, PeerInfoV, HOST_PID,
};
use crate::state;
use crate::state::{
    ActionV, ClaimV, ConnId, KnockV, NeedV, PlayerV, SessionKind, State, WorldV, BACKFILL, DELAY, HASHES_KEPT,
    HASH_EVERY, HISTORY_KEEP, MAX_CATCHUP, MAX_PLAYERS, PEER_TIMEOUT_NS, TICK_NS,
};
use crate::tables::{pids, pids_enumerate, PidMap, Table};
use crate::text::{dec, line, push_dec, push_text, str_eq, text_of};
use crate::transport::{SentV, Transport, TransportEv};
use vstd::prelude::*;

verus! {

// ----------------------------------------------------------------------
// The pieces of a session
// ----------------------------------------------------------------------

/// A settlement on record, as far as the session reads it.
#[derive(Debug)]
pub struct Player {
    pub joined: bool,
    pub name: String,
    pub key: PubKey,
}

impl View for Player {
    type V = PlayerV;

    open spec fn view(&self) -> PlayerV {
        PlayerV { joined: self.joined, name: self.name@, key: self.key@ }
    }
}

/// The world, as far as the session reads it.
#[derive(Debug)]
pub struct World {
    pub tick: u32,
    pub players: Vec<Player>,
}

impl View for World {
    type V = WorldV;

    open spec fn view(&self) -> WorldV {
        WorldV { tick: self.tick, players: Seq::new(self.players@.len(), |i: int| self.players@[i]@) }
    }
}

/// A joiner knocking, waiting for the freeze point.
#[derive(Debug)]
pub struct Knock {
    pub conn: ConnId,
    pub key: PubKey,
    pub name: String,
    pub color: u8,
    pub listen_port: u16,
}

impl View for Knock {
    type V = KnockV;

    open spec fn view(&self) -> KnockV {
        KnockV {
            conn: self.conn,
            key: self.key@,
            name: self.name@,
            color: self.color,
            listen_port: self.listen_port,
        }
    }
}

/// A claim to a pid that the roster does not know yet.
#[derive(Debug)]
pub struct Claim {
    pub conn: ConnId,
    pub key: PubKey,
    pub pid: u8,
}

impl View for Claim {
    type V = ClaimV;

    open spec fn view(&self) -> ClaimV {
        ClaimV { conn: self.conn, key: self.key@, pid: self.pid }
    }
}

/// Something for the transport to do.
#[allow(inconsistent_fields)]
#[derive(Debug)]
pub enum Action {
    /// Seal the message under this number and send it on each of the links.
    Send { to: Vec<ConnId>, seq: u64, msg: Msg },
    Close { conn: ConnId },
}

impl View for Action {
    type V = ActionV;

    open spec fn view(&self) -> ActionV {
        match *self {
            Action::Send { to, seq, msg } => ActionV::Send { to: to@, seq, msg: msg@ },
            Action::Close { conn } => ActionV::Close { conn },
        }
    }
}

/// Something for the simulation to do before the session goes on.
#[derive(Debug)]
pub enum Need {
    Nothing,
    /// The bytes of our own world.
    Snapshot,
    /// The world in these bytes.
    Load { old: u8, new_host: u8, bots: Vec<u8>, snapshot: Vec<u8> },
}

impl View for Need {
    type V = NeedV;

    open spec fn view(&self) -> NeedV {
        match *self {
            Need::Nothing => NeedV::Nothing,
            Need::Snapshot => NeedV::Snapshot,
            Need::Load { old, new_host, bots, snapshot } => NeedV::Load {
                old,
                new_host,
                bots: bots@,
                snapshot: snapshot@,
            },
        }
    }
}

pub open spec fn views<T: View>(v: Seq<T>) -> Seq<T::V> {
    Seq::new(v.len(), |i: int| v[i]@)
}

pub struct Session {
    pub world: World,
    pub kind: SessionKind,
    pub my_pid: u8,
    pub my_name: String,
    pub my_color: u8,
    pub roster: PidMap<PeerInfo>,
    pub status: String,
    pub desync_at: Option<u32>,
    /// Time banked toward the next tick, in nanoseconds.
    pub accum: u64,
    identity: Identity,
    seq: u64,
    peer_seq: Table<PubKey, u64>,
    conn_key: Table<ConnId, PubKey>,
    host_pid: u8,
    pid_of: Table<ConnId, u8>,
    conn_of: PidMap<ConnId>,
    pending_dials: Vec<Claim>,
    next_send: u32,
    pending: Table<u32, PidMap<Orders>>,
    history: Table<u32, PidMap<Orders>>,
    ghosts: PidMap<u32>,
    starts: PidMap<u32>,
    host_seen: u32,
    now: u64,
    last_heard: PidMap<u64>,
    freeze_at: Option<u32>,
    lobby: Vec<Knock>,
    local_q: Orders,
    bot_q: PidMap<Orders>,
    my_hashes: Vec<(u32, u64)>,
    host_gone: bool,
    migration: Option<u8>,
    need: Need,
    outbox: Vec<Action>,
}

impl View for Session {
    type V = State;

    closed spec fn view(&self) -> State {
        State {
            world: self.world@,
            kind: self.kind,
            my_pid: self.my_pid,
            my_name: self.my_name@,
            my_color: self.my_color,
            roster: self.roster@,
            status: self.status@,
            desync_at: self.desync_at,
            accum: self.accum,
            secret: self.identity.secret(),
            key: self.identity.public(),
            seq: self.seq,
            peer_seq: self.peer_seq@,
            conn_key: self.conn_key@,
            host_pid: self.host_pid,
            pid_of: self.pid_of@,
            conn_of: self.conn_of@,
            pending_dials: views(self.pending_dials@),
            next_send: self.next_send,
            pending: self.pending@,
            history: self.history@,
            ghosts: self.ghosts@,
            starts: self.starts@,
            host_seen: self.host_seen,
            now: self.now,
            last_heard: self.last_heard@,
            freeze_at: self.freeze_at,
            lobby: views(self.lobby@),
            local_q: self.local_q@,
            bot_q: self.bot_q@,
            my_hashes: self.my_hashes@,
            host_gone: self.host_gone,
            migration: self.migration,
            need: self.need@,
            outbox: views(self.outbox@),
        }
    }
}

proof fn lemma_push_view<T: View>(v: Seq<T>, x: T)
    ensures
        views(v.push(x)) == views(v).push(x@),
{
    assert(views(v.push(x)) =~= views(v).push(x@));
}

proof fn lemma_no_key()
    ensures
        ZERO_KEY@ == state::no_key(),
{
    assert(ZERO_KEY@ =~= state::no_key());
}

fn sat_add(a: u32, b: u32) -> (r: u32)
    ensures
        r == state::sat_add(a, b),
{
    if a > u32::MAX - b {
        u32::MAX
    } else {
        a + b
    }
}

fn sat_sub(a: u32, b: u32) -> (r: u32)
    ensures
        r == state::sat_sub(a, b),
{
    if a < b {
        0
    } else {
        a - b
    }
}

fn max32(a: u32, b: u32) -> (r: u32)
    ensures
        r == state::max32(a, b),
{
    if a < b {
        b
    } else {
        a
    }
}

/// The first envelope number of a session begun at the millisecond `ms`.
pub fn first_seq(ms: u64) -> (r: u64)
    ensures
        r == state::first_seq(ms),
{
    ((ms as u128 * 1024) % 0x1_0000_0000_0000_0000) as u64
}

fn copy_bytes(b: &Vec<u8>) -> (r: Vec<u8>)
    ensures
        r@ == b@,
{
    vstd::slice::slice_to_vec(b.as_slice())
}

// ----------------------------------------------------------------------
// Command rows
// ----------------------------------------------------------------------

spec fn below(s: Set<u8>, p: int) -> Set<u8> {
    Set::new(|q: u8| s.contains(q) && q < p)
}

fn fill_row(row: &mut PidMap<Orders>, who: &PidMap<PeerInfo>, all: bool)
    ensures
        final(row)@ == state::fill_row(old(row)@, who@.dom(), all),
{
    let mut p: u16 = 0;
    proof {
        assert(row@ =~= state::fill_row(old(row)@, below(who@.dom(), 0), all));
    }
    while p < 256
        invariant
            p <= 256,
            row@ == state::fill_row(old(row)@, below(who@.dom(), p as int), all),
        decreases 256 - p,
    {
        let q: u8 = p as u8;
        let ghost before = row@;
        if who.contains(q) && (all || !row.contains(q)) {
            row.insert(q, Orders::empty());
        }
        proof {
            assert(row@ =~= state::fill_row(old(row)@, below(who@.dom(), p + 1), all));
        }
        p = p + 1;
    }
    proof {
        assert(below(who@.dom(), 256) =~= who@.dom());
    }
}

fn fill_window(pending: &mut Table<u32, PidMap<Orders>>, from: u32, to: u32, who: &PidMap<PeerInfo>, all: bool)
    ensures
        final(pending)@ == state::fill_window(old(pending)@, from, to, who@.dom(), all),
{
    let mut t: u32 = from;
    proof {
        assert(pending@ =~= state::fill_window(old(pending)@, from, from, who@.dom(), all));
    }
    while t < to
        invariant
            from <= t,
            t <= to || t == from,
            pending@ == state::fill_window(old(pending)@, from, t, who@.dom(), all),
        decreases to - t,
    {
        let ghost before = pending@;
        let mut row: PidMap<Orders> = match pending.remove(&t) {
            Some(row) => row,
            None => PidMap::new(),
        };
        proof {
            assert(row@ =~= state::row_at(old(pending)@, t));
        }
        fill_row(&mut row, who, all);
        pending.insert(t, row);
        proof {
            assert(pending@ =~= state::fill_window(old(pending)@, from, (t + 1) as u32, who@.dom(), all));
        }
        t = t + 1;
    }
    proof {
        assert(pending@ =~= state::fill_window(old(pending)@, from, to, who@.dom(), all));
    }
}

fn set_orders(pending: &mut Table<u32, PidMap<Orders>>, t: u32, pid: u8, cs: Orders)
    ensures
        final(pending)@ == state::set_orders(old(pending)@, t, pid, cs@),
{
    let mut row: PidMap<Orders> = match pending.remove(&t) {
        Some(row) => row,
        None => PidMap::new(),
    };
    proof {
        assert(row@ =~= state::row_at(old(pending)@, t));
    }
    let ghost r0 = row@;
    row.insert(pid, cs);
    pending.insert(t, row);
    proof {
        assert(pending@ =~= state::set_orders(old(pending)@, t, pid, cs@));
    }
}

fn row_has(m: &Table<u32, PidMap<Orders>>, t: u32, pid: u8) -> (r: bool)
    ensures
        r == state::row_at(m@, t).contains_key(pid),
{
    match m.get(&t) {
        Some(row) => row.contains(pid),
        None => false,
    }
}

/// A copy of what a table of rows holds for a player.
fn row_copy(m: &Table<u32, PidMap<Orders>>, t: u32, pid: u8) -> (r: Option<Vec<Command>>)
    ensures
        r is Some <==> state::row_at(m@, t).contains_key(pid),
        r matches Some(cs) ==> commands_view(cs@) == state::row_at(m@, t)[pid],
{
    match m.get(&t) {
        Some(row) => match row.get(pid) {
            Some(o) => Some(dup_commands(&o.list)),
            None => None,
        },
        None => None,
    }
}

// ----------------------------------------------------------------------
// Who gets which pid
// ----------------------------------------------------------------------

fn reclaims(p: &Player, roster: &PidMap<PeerInfo>, name: &str, key: &PubKey, pid: u8) -> (r: bool)
    ensures
        r == (p@.joined && !roster@.contains_key(pid) && p@.name == name@ && (p@.key == state::no_key() || p@.key
            == key@)),
{
    proof {
        lemma_no_key();
    }
    p.joined && !roster.contains(pid) && str_eq(p.name.as_str(), name) && (key_eq(&p.key, &ZERO_KEY) || key_eq(
        &p.key,
        key,
    ))
}

/// pid for a (re)joining settler. Reclaim requires holding the settlement's key (keyless
/// settlements reclaim by name); pids currently online are never reclaimable, which also
/// stops anyone joining as a live bot. Otherwise: lowest free slot.
pub fn pid_for(world: &World, roster: &PidMap<PeerInfo>, name: &str, key: &PubKey) -> (r: Option<u8>)
    ensures
        r == state::pid_for(world@, roster@, name@, key@),
{
    let mut i: usize = 0;
    while i < world.players.len()
        invariant
            i <= world.players@.len(),
            state::first_reclaim(world@, roster@, name@, key@, i as int) == state::first_reclaim(
                world@,
                roster@,
                name@,
                key@,
                0,
            ),
        decreases world.players@.len() - i,
    {
        let pid: u8 = (i % 256) as u8;
        if reclaims(&world.players[i], roster, name, key, pid) {
            proof {
                assert(state::reclaims(world@, roster@, name@, key@, i as int));
            }
            return Some(pid);
        }
        proof {
            assert(!state::reclaims(world@, roster@, name@, key@, i as int));
        }
        i = i + 1;
    }
    let mut p: u8 = 0;
    while p < MAX_PLAYERS
        invariant
            p <= MAX_PLAYERS,
            state::first_reclaim(world@, roster@, name@, key@, 0) is None,
            state::first_free(world@, roster@, p as int) == state::first_free(world@, roster@, 0),
        decreases MAX_PLAYERS - p,
    {
        let open: bool = !roster.contains(p) && (p as usize >= world.players.len() || !world.players[p as usize].joined);
        proof {
            assert(open == state::slot_free(world@, roster@, p as int));
        }
        if open {
            return Some(p);
        }
        p = p + 1;
    }
    None
}

// ----------------------------------------------------------------------
// Sending
// ----------------------------------------------------------------------

impl Session {
    pub fn my_key(&self) -> (r: PubKey)
        ensures
            r@ == self@.key,
    {
        self.identity.public_key()
    }

    /// What the session waits for before it takes another event.
    pub fn need(&self) -> (r: &Need)
        ensures
            r@ == self@.need,
    {
        &self.need
    }

    fn emit(&mut self, to: Vec<ConnId>, msg: Msg)
        ensures
            final(self)@ == state::emit(old(self)@, to@, msg@),
            final(self).identity == old(self).identity,
    {
        let a = Action::Send { to, seq: self.seq, msg };
        proof {
            lemma_push_view(self.outbox@, a);
        }
        self.outbox.push(a);
        if self.seq < u64::MAX {
            self.seq = self.seq + 1;
        }
    }

    fn send_to(&mut self, conn: ConnId, msg: Msg)
        ensures
            final(self)@ == state::send_to(old(self)@, conn, msg@),
    {
        let mut to: Vec<ConnId> = Vec::new();
        to.push(conn);
        proof {
            assert(to@ =~= seq![conn]);
        }
        self.emit(to, msg);
    }

    fn links(&self, except: Option<u8>) -> (to: Vec<ConnId>)
        ensures
            to@ == state::links(pids(self@.conn_of.dom()), self@.conn_of, except),
    {
        let ps: Vec<u8> = self.conn_of.keys();
        proof {
            pids_enumerate(self.conn_of@.dom(), 256);
        }
        let mut to: Vec<ConnId> = Vec::new();
        let mut i: usize = 0;
        while i < ps.len()
            invariant
                i <= ps@.len(),
                forall|j: int| 0 <= j < ps@.len() ==> self.conn_of@.contains_key(#[trigger] ps@[j]),
                to@ == state::links(ps@.take(i as int), self.conn_of@, except),
            decreases ps@.len() - i,
        {
            let p: u8 = ps[i];
            let skip: bool = match except {
                Some(e) => e == p,
                None => false,
            };
            proof {
                assert(self.conn_of@.contains_key(ps@[i as int]));
                assert(ps@.take(i + 1).drop_last() =~= ps@.take(i as int));
                assert(ps@.take(i + 1).last() == p);
            }
            if !skip {
                match self.conn_of.get(p) {
                    Some(c) => {
                        to.push(*c);
                    },
                    None => {},
                }
            }
            i = i + 1;
        }
        proof {
            assert(ps@.take(i as int) =~= ps@);
        }
        to
    }

    /// Seal once: every recipient sees the same (sender, seq, sig).
    fn broadcast(&mut self, msg: Msg, except: Option<u8>)
        ensures
            final(self)@ == state::broadcast(old(self)@, msg@, except),
    {
        let to: Vec<ConnId> = self.links(except);
        self.emit(to, msg);
    }

    fn close(&mut self, conn: ConnId)
        ensures
            final(self)@ == state::close(old(self)@, conn),
    {
        let a = Action::Close { conn };
        proof {
            lemma_push_view(self.outbox@, a);
        }
        self.outbox.push(a);
    }

    fn bind(&mut self, conn: ConnId, pid: u8)
        ensures
            final(self)@ == state::bind(old(self)@, conn, pid),
    {
        self.pid_of.insert(conn, pid);
        self.conn_of.insert(pid, conn);
        self.last_heard.insert(pid, self.now);
    }

    /// Forget the link of a player; which link it was.
    fn unlink(&mut self, pid: u8) -> (r: Option<ConnId>)
        ensures
            final(self)@ == state::unlink(old(self)@, pid),
            r is Some <==> old(self)@.conn_of.contains_key(pid),
            r matches Some(c) ==> c == old(self)@.conn_of[pid],
    {
        match self.conn_of.remove(pid) {
            Some(conn) => {
                let _ = self.pid_of.remove(&conn);
                let _ = self.conn_key.remove(&conn);
                Some(conn)
            },
            None => {
                proof {
                    assert(self.conn_of@ =~= old(self).conn_of@);
                }
                None
            },
        }
    }

    /// Forget the link of a player and close it.
    fn cut(&mut self, pid: u8)
        ensures
            final(self)@ == state::cut(old(self)@, pid),
    {
        match self.unlink(pid) {
            Some(conn) => {
                self.close(conn);
            },
            None => {},
        }
    }

    fn key_of_pid(&self, pid: u8) -> (r: PubKey)
        ensures
            r@ == state::key_of_pid(self@.roster, pid),
    {
        proof {
            lemma_no_key();
        }
        match self.roster.get(pid) {
            Some(p) => p.key,
            None => ZERO_KEY,
        }
    }

    fn owns(&self, pid: u8, key: &PubKey) -> (r: bool)
        ensures
            r == state::owns(self@, pid, key@),
    {
        match self.roster.get(pid) {
            Some(p) => key_eq(&p.key, key),
            None => false,
        }
    }

    fn say(&mut self, s: &str)
        ensures
            final(self)@ == (State { status: s@, ..old(self)@ }),
    {
        self.status = text_of(s);
    }

    // ------------------------------------------------------------------
    // Constructors
    // ------------------------------------------------------------------

    fn base(world: World, kind: SessionKind, identity: Identity, name: &str, color: u8, seq: u64) -> (s: Session)
        ensures
            s@ == state::base(world@, kind, identity.secret(), identity.public(), name@, color, seq),
    {
        let s = Session {
            world,
            kind,
            my_pid: 0,
            my_name: text_of(name),
            my_color: color,
            roster: PidMap::new(),
            status: String::new(),
            desync_at: None,
            accum: 0,
            identity,
            seq,
            peer_seq: Table::new(),
            conn_key: Table::new(),
            host_pid: HOST_PID,
            pid_of: Table::new(),
            conn_of: PidMap::new(),
            pending_dials: Vec::new(),
            next_send: 0,
            pending: Table::new(),
            history: Table::new(),
            ghosts: PidMap::new(),
            starts: PidMap::new(),
            host_seen: 0,
            now: 0,
            last_heard: PidMap::new(),
            freeze_at: None,
            lobby: Vec::new(),
            local_q: Orders::empty(),
            bot_q: PidMap::new(),
            my_hashes: Vec::new(),
            host_gone: false,
            migration: None,
            need: Need::Nothing,
            outbox: Vec::new(),
        };
        proof {
            assert(s@ =~= state::base(world@, kind, identity.secret(), identity.public(), name@, color, seq));
        }
        s
    }

    fn add_bot(&mut self, name: &String)
        ensures
            final(self)@ == state::add_bot(old(self)@, name@),
    {
        proof {
            lemma_no_key();
        }
        match pid_for(&self.world, &self.roster, name.as_str(), &ZERO_KEY) {
            Some(b) => {
                let info = PeerInfo {
                    pid: b,
                    name: name.clone(),
                    color: b % 8,
                    addr: String::new(),
                    key: self.identity.public_key(),
                    bot: true,
                };
                self.roster.insert(b, info);
                self.bot_q.insert(b, Orders::empty());
            },
            None => {},
        }
    }

    fn open_timeline(&mut self, from: u32)
        ensures
            final(self)@ == state::open_timeline(old(self)@, from),
    {
        let end: u32 = sat_add(from, DELAY);
        fill_window(&mut self.pending, from, end, &self.roster, false);
        self.next_send = end;
        self.local_q.push(
            Command::Join { name: self.my_name.clone(), color: self.my_color, key: self.identity.public_key() },
        );
    }

    /// A world of our own, with the given first envelope number.
    pub fn solo_at(world: World, identity: Identity, name: &str, color: u8, bot_names: &[String], seq: u64) -> (s:
        Session)
        ensures
            s@ == state::solo(world@, identity.secret(), identity.public(), name@, color, views(bot_names@), seq),
    {
        let ghost w = world@;
        let ghost key = identity.public();
        let mut s = Session::base(world, SessionKind::Solo, identity, name, color, seq);
        let my_key: PubKey = s.identity.public_key();
        let pid: u8 = match pid_for(&s.world, &s.roster, name, &my_key) {
            Some(p) => p,
            None => 0,
        };
        s.my_pid = pid;
        s.roster.insert(
            pid,
            PeerInfo { pid, name: text_of(name), color, addr: String::new(), key: my_key, bot: false },
        );
        let ghost s1 = s@;
        proof {
            assert(s1.roster[pid] =~= state::me(pid, name@, color, key));
        }
        let ghost names = views(bot_names@);
        let mut i: usize = 0;
        proof {
            assert(names.take(0) =~= Seq::<Seq<char>>::empty());
        }
        while i < bot_names.len()
            invariant
                i <= bot_names@.len(),
                names == views(bot_names@),
                s@ == state::add_bots(s1, names.take(i as int)),
            decreases bot_names@.len() - i,
        {
            s.add_bot(&bot_names[i]);
            proof {
                assert(names.take(i + 1).drop_last() =~= names.take(i as int));
                assert(names.take(i + 1).last() == bot_names@[i as int]@);
            }
            i = i + 1;
        }
        proof {
            assert(names.take(i as int) =~= names);
            lemma_bots_keep(s1, names);
        }
        let t0: u32 = s.world.tick;
        s.open_timeline(t0);
        s.say("offline world");
        s
    }

    /// A world of our own. Envelope numbers start from the wall clock, so that a new session
    /// outranks replayed old frames.
    pub fn solo(world: World, identity: Identity, name: &str, color: u8, bot_names: &[String]) -> (s: Session)
        ensures
            s@ == state::solo(world@, identity.secret(), identity.public(), name@, color, views(bot_names@), s@.seq),
            exists|ms: u64| s@.seq == #[trigger] state::first_seq(ms),
    {
        let seq: u64 = first_seq(unix_millis());
        let s = Session::solo_at(world, identity, name, color, bot_names, seq);
        proof {
            lemma_solo_seq(world@, identity.secret(), identity.public(), name@, color, views(bot_names@), seq);
        }
        s
    }

    /// Host a world over any transport, with the given first envelope number.
    pub fn host_at(world: World, identity: Identity, name: &str, color: u8, bot_names: &[String], seq: u64) -> (s: Session)
        ensures
            s@ == state::hosting(
                world@,
                identity.secret(),
                identity.public(),
                name@,
                color,
                views(bot_names@),
                seq,
                "hosting"@,
            ),
    {
        let mut s = Session::solo_at(world, identity, name, color, bot_names, seq);
        s.kind = SessionKind::Host;
        s.say("hosting");
        s
    }

    /// Host a world over any transport.
    pub fn host_on(world: World, identity: Identity, name: &str, color: u8, bot_names: &[String]) -> (s: Session)
        ensures
            s@ == state::hosting(
                world@,
                identity.secret(),
                identity.public(),
                name@,
                color,
                views(bot_names@),
                s@.seq,
                "hosting"@,
            ),
            exists|ms: u64| s@.seq == #[trigger] state::first_seq(ms),
    {
        let seq: u64 = first_seq(unix_millis());
        let s = Session::host_at(world, identity, name, color, bot_names, seq);
        proof {
            lemma_solo_seq(world@, identity.secret(), identity.public(), name@, color, views(bot_names@), seq);
        }
        s
    }

    /// Host a world on a TCP mesh that listens on `port`.
    pub fn host(world: World, identity: Identity, port: u16, name: &str, color: u8, bot_names: &[String]) -> (s: Session)
        ensures
            s@ == state::hosting(
                world@,
                identity.secret(),
                identity.public(),
                name@,
                color,
                views(bot_names@),
                s@.seq,
                "hosting on port "@ + dec(port as nat) + " — friends join with --join <your-ip>:"@ + dec(port as nat),
            ),
            exists|ms: u64| s@.seq == #[trigger] state::first_seq(ms),
    {
        let mut s = Session::solo(world, identity, name, color, bot_names);
        s.kind = SessionKind::Host;
        let mut status: String = line("hosting on port ", port as u64, " — friends join with --join <your-ip>:");
        push_dec(&mut status, port as u64);
        s.status = status;
        s
    }

    // ------------------------------------------------------------------
    // Command intake
    // ------------------------------------------------------------------

    /// Queue a command from the local player. It will be scheduled `DELAY` ticks ahead and
    /// executed simultaneously on every peer.
    pub fn queue(&mut self, cmd: Command)
        ensures
            final(self)@ == (State { local_q: old(self)@.local_q.push(cmd@), ..old(self)@ }),
            final(self)@ == state::queued(old(self)@, cmd@),
    {
        self.local_q.push(cmd);
    }

    /// Queue a command on behalf of a bot.
    pub fn queue_as(&mut self, pid: u8, cmd: Command)
        ensures
            final(self)@ == (State {
                bot_q: old(self)@.bot_q.insert(
                    pid,
                    if old(self)@.bot_q.contains_key(pid) {
                        old(self)@.bot_q[pid].push(cmd@)
                    } else {
                        seq![cmd@]
                    },
                ),
                ..old(self)@
            }),
            final(self)@ == state::queued_as(old(self)@, pid, cmd@),
    {
        let mut q: Orders = match self.bot_q.remove(pid) {
            Some(q) => q,
            None => Orders::empty(),
        };
        let ghost q0 = q@;
        q.push(cmd);
        self.bot_q.insert(pid, q);
        proof {
            if !old(self)@.bot_q.contains_key(pid) {
                assert(q@ =~= seq![cmd@]);
            }
            assert(self.bot_q@ =~= old(self).bot_q@.insert(pid, q@));
        }
    }

    /// Pids of bots this session is responsible for driving.
    pub fn bot_pids(&self) -> (r: Vec<u8>)
        ensures
            r@ == (if self@.kind == SessionKind::Client {
                Seq::empty()
            } else {
                pids(self@.bot_q.dom())
            }),
            r@ == state::driven(self@),
    {
        if self.kind == SessionKind::Client {
            let r: Vec<u8> = Vec::new();
            r
        } else {
            self.bot_q.keys()
        }
    }

    /// How far we are into the current tick, in nanoseconds of `TICK_NS`.
    pub fn alpha(&self) -> (r: u64)
        ensures
            r == (if self@.accum > TICK_NS {
                TICK_NS
            } else {
                self@.accum
            }),
    {
        if self.accum > TICK_NS {
            TICK_NS
        } else {
            self.accum
        }
    }

    pub fn peer_count(&self) -> (n: usize)
        ensures
            n == pids(self@.roster.dom()).len(),
    {
        self.roster.len()
    }

    // ------------------------------------------------------------------
    // Shipping commands and running ticks
    // ------------------------------------------------------------------

    fn give_orders(&mut self, t: u32, pid: u8, cs: Orders)
        ensures
            final(self)@ == state::give_orders(old(self)@, t, pid, cs@),
    {
        if self.kind == SessionKind::Solo {
            set_orders(&mut self.pending, t, pid, cs);
        } else {
            let cmds: Vec<Command> = dup_commands(&cs.list);
            set_orders(&mut self.pending, t, pid, cs);
            self.broadcast(Msg::Cmds { tick: t, pid, cmds }, None);
        }
    }

    fn send_bot(&mut self, t: u32, b: u8)
        requires
            old(self)@.bot_q.contains_key(b),
        ensures
            final(self)@ == state::send_bot(old(self)@, t, b),
    {
        let q: Orders = match self.bot_q.remove(b) {
            Some(q) => q,
            None => Orders::empty(),
        };
        self.bot_q.insert(b, Orders::empty());
        proof {
            assert(self.bot_q@ =~= old(self).bot_q@.insert(b, Seq::empty()));
        }
        self.give_orders(t, b, q);
    }

    fn send_tick(&mut self)
        requires
            old(self)@.next_send < u32::MAX,
        ensures
            final(self)@ == state::send_tick(old(self)@),
    {
        let t: u32 = self.next_send;
        let mut mine: Orders = Orders::empty();
        std::mem::swap(&mut mine, &mut self.local_q);
        let pid: u8 = self.my_pid;
        self.give_orders(t, pid, mine);
        let ghost s1 = self@;
        let bots: Vec<u8> = self.bot_q.keys();
        proof {
            pids_enumerate(self.bot_q@.dom(), 256);
            assert(bots@.take(0) =~= Seq::<u8>::empty());
        }
        let mut i: usize = 0;
        while i < bots.len()
            invariant
                i <= bots@.len(),
                forall|j: int| 0 <= j < bots@.len() ==> s1.bot_q.contains_key(#[trigger] bots@[j]),
                self@.bot_q.dom() == s1.bot_q.dom(),
                self@ == state::send_bots(s1, t, bots@.take(i as int)),
            decreases bots@.len() - i,
        {
            let b: u8 = bots[i];
            proof {
                assert(s1.bot_q.contains_key(bots@[i as int]));
                assert(s1.bot_q.dom().contains(b));
                assert(bots@.take(i + 1).drop_last() =~= bots@.take(i as int));
                assert(bots@.take(i + 1).last() == b);
            }
            let ghost before = self@;
            self.send_bot(t, b);
            proof {
                assert(self@.bot_q =~= before.bot_q.insert(b, Seq::empty()));
                assert(self@.bot_q.dom() =~= s1.bot_q.dom());
            }
            i = i + 1;
        }
        proof {
            assert(bots@.take(i as int) =~= bots@);
        }
        self.next_send = t + 1;
    }

    fn send_limit(&self) -> (r: u32)
        ensures
            r == state::send_limit(self@),
    {
        let a: u32 = sat_add(self.world.tick, DELAY + 1);
        let b: u32 = match self.freeze_at {
            Some(fa) => if fa < a {
                fa
            } else {
                a
            },
            None => a,
        };
        if self.kind == SessionKind::Client && self.host_seen < b {
            self.host_seen
        } else {
            b
        }
    }

    /// Ship Cmds frames for every tick we owe the mesh.
    fn ensure_sent(&mut self)
        ensures
            final(self)@ == state::ensure_sent(old(self)@),
    {
        let limit: u32 = self.send_limit();
        if self.next_send >= limit {
            return;
        }
        let ghost goal = state::ensure_sent(self@);
        while self.next_send < limit
            invariant
                self.next_send <= limit,
                self@.next_send == self.next_send,
                state::send_ticks(self@, (limit - self.next_send) as nat) == goal,
            decreases limit - self.next_send,
        {
            self.send_tick();
        }
    }

    /// Can tick `t` execute?
    fn ready(&self, t: u32) -> (r: bool)
        ensures
            r == state::ready(self@, t),
    {
        match self.pending.get(&t) {
            Some(row) => {
                let mut p: u16 = 0;
                while p < 256
                    invariant
                        p <= 256,
                        self@.pending.contains_key(t),
                        row@ == self@.pending[t],
                        forall|q: u8|
                            q < p && #[trigger] self@.roster.contains_key(q) && state::owes(self@, q, t) ==> row@.contains_key(q),
                        forall|q: u8|
                            q < p && #[trigger] self@.ghosts.contains_key(q) && t < self@.ghosts[q] ==> row@.contains_key(
                                q,
                            ),
                    decreases 256 - p,
                {
                    let q: u8 = p as u8;
                    if !row.contains(q) {
                        let early: bool = match self.starts.get(q) {
                            Some(from) => t < *from,
                            None => false,
                        };
                        if self.roster.contains(q) && !early {
                            proof {
                                assert(self@.roster.contains_key(q) && state::owes(self@, q, t));
                            }
                            return false;
                        }
                        match self.ghosts.get(q) {
                            Some(from) => {
                                if t < *from {
                                    proof {
                                        assert(self@.ghosts.contains_key(q));
                                    }
                                    return false;
                                }
                            },
                            None => {},
                        }
                    }
                    p = p + 1;
                }
                true
            },
            None => false,
        }
    }

    /// Take the current tick's commands, in the order in which every peer runs them.
    pub fn begin_tick(&mut self) -> (r: Vec<(u8, Command)>)
        ensures
            final(self)@ == state::begin_tick(old(self)@),
            orders_view(r@) == state::tick_orders(old(self)@),
    {
        let ghost s0 = self@;
        let t: u32 = self.world.tick;
        let mut row: PidMap<Orders> = match self.pending.remove(&t) {
            Some(row) => row,
            None => PidMap::new(),
        };
        let ghost r0 = row@;
        proof {
            assert(r0 =~= state::row_at(s0.pending, t));
        }
        let mut p: u16 = 0;
        while p < 256
            invariant
                p <= 256,
                self.roster@ == s0.roster,
                self.ghosts@ == s0.ghosts,
                forall|q: u8| #[trigger]
                    row@.contains_key(q) <==> r0.contains_key(q) && (q >= p || counts(s0, t, q)),
                forall|q: u8| #[trigger] row@.contains_key(q) ==> row@[q] == r0[q],
            decreases 256 - p,
        {
            let q: u8 = p as u8;
            let lingers: bool = match self.ghosts.get(q) {
                Some(from) => t < *from,
                None => false,
            };
            if !self.roster.contains(q) && !lingers {
                let _ = row.remove(q);
            }
            p = p + 1;
        }
        proof {
            assert(row@ =~= state::kept(s0, t));
        }
        let r: Vec<(u8, Command)> = flatten(&row);
        self.history.insert(t, row);
        r
    }

    /// The simulation ran the tick: here is the new world and, on checksum ticks, its hash.
    fn end_tick(&mut self, world: World, hash: u64)
        ensures
            final(self)@ == state::end_tick(old(self)@, world@, hash),
    {
        let ghost s0 = self@;
        let ghost w = world@;
        self.world = world;
        let t: u32 = self.world.tick;
        self.history.prune(sat_sub(t, HISTORY_KEEP));
        self.pending.prune(t);
        let mut p: u16 = 0;
        while p < 256
            invariant
                p <= 256,
                t == w.tick,
                self@ == (State { ghosts: self@.ghosts, ..state::retire(s0, w) }),
                forall|q: u8| #[trigger]
                    self@.ghosts.contains_key(q) <==> s0.ghosts.contains_key(q) && (q >= p || t < s0.ghosts[q]),
                forall|q: u8| #[trigger] self@.ghosts.contains_key(q) ==> self@.ghosts[q] == s0.ghosts[q],
            decreases 256 - p,
        {
            let q: u8 = p as u8;
            let done: bool = match self.ghosts.get(q) {
                Some(from) => t >= *from,
                None => false,
            };
            if done {
                let _ = self.ghosts.remove(q);
            }
            p = p + 1;
        }
        proof {
            assert(self@.ghosts =~= state::retire(s0, w).ghosts);
        }
        if t % HASH_EVERY == 0 {
            self.my_hashes.push((t, hash));
            let ghost full = self.my_hashes@;
            while self.my_hashes.len() > HASHES_KEPT
                invariant
                    self@ == (State { my_hashes: self.my_hashes@, ..state::retire(s0, w) }),
                    state::last_hashes(self.my_hashes@) == state::last_hashes(full),
                decreases self.my_hashes@.len(),
            {
                let ghost before = self.my_hashes@;
                let _ = self.my_hashes.remove(0);
                proof {
                    let after = self.my_hashes@;
                    assert(state::last_hashes(after) =~= state::last_hashes(before));
                }
            }
            if self.kind != SessionKind::Solo {
                self.broadcast(Msg::HashChk { tick: t, hash }, None);
            }
        }
    }

    /// The simulation ran the tick: here is the new world and, on checksum ticks, its hash.
    pub fn finish_tick(&mut self, world: World, hash: u64)
        requires
            old(self)@.accum >= TICK_NS,
        ensures
            final(self)@ == state::finish_tick(old(self)@, world@, hash),
    {
        self.end_tick(world, hash);
        let ghost s1 = self@;
        self.ensure_sent();
        proof {
            lemma_sent_keeps(s1);
        }
        self.accum = self.accum - TICK_NS;
    }

    /// Ship what is owed and bank the elapsed time, unless the world stands still. Whether
    /// ticks may run.
    pub fn pace(&mut self, dt: u64) -> (r: bool)
        ensures
            final(self)@ == state::pace(old(self)@, dt),
            r == !(old(self)@.host_gone || old(self)@.desync_at is Some),
    {
        let ghost s0 = self@;
        self.ensure_sent();
        proof {
            lemma_sent_keeps(s0);
        }
        if self.host_gone || self.desync_at.is_some() {
            self.accum = 0;
            false
        } else {
            if self.accum > u64::MAX - dt {
                self.accum = u64::MAX;
            } else {
                self.accum = self.accum + dt;
            }
            true
        }
    }

    /// Is another tick due in this update, of which `stepped` ticks have run?
    pub fn due(&self, stepped: u32) -> (r: bool)
        ensures
            r == state::due(self@, stepped),
    {
        self.accum >= TICK_NS && stepped < MAX_CATCHUP && self.ready(self.world.tick)
    }

    /// Close an update in which `stepped` ticks have run and no more are due.
    pub fn settle(&mut self, stepped: u32)
        ensures
            final(self)@ == state::settle(old(self)@, stepped),
    {
        if stepped >= MAX_CATCHUP {
            self.accum = 0;
        } else if self.accum >= TICK_NS {
            self.accum = TICK_NS;
        }
    }
}

/// A tick's commands by their contents.
pub open spec fn orders_view(v: Seq<(u8, Command)>) -> Seq<(u8, CommandV)> {
    Seq::new(v.len(), |i: int| (v[i].0, v[i].1@))
}

spec fn counts(s: State, t: u32, q: u8) -> bool {
    s.roster.contains_key(q) || (s.ghosts.contains_key(q) && t < s.ghosts[q])
}

/// A row as the simulation takes it: by player, then in the order given.
fn flatten(row: &PidMap<Orders>) -> (r: Vec<(u8, Command)>)
    ensures
        orders_view(r@) == state::flat(pids(row@.dom()), row@),
{
    let ps: Vec<u8> = row.keys();
    proof {
        pids_enumerate(row@.dom(), 256);
    }
    let mut r: Vec<(u8, Command)> = Vec::new();
    let mut i: usize = 0;
    proof {
        assert(orders_view(r@) =~= state::flat(ps@.take(0), row@));
    }
    while i < ps.len()
        invariant
            i <= ps@.len(),
            forall|j: int| 0 <= j < ps@.len() ==> row@.contains_key(#[trigger] ps@[j]),
            orders_view(r@) == state::flat(ps@.take(i as int), row@),
        decreases ps@.len() - i,
    {
        let p: u8 = ps[i];
        let ghost head = orders_view(r@);
        proof {
            assert(row@.contains_key(ps@[i as int]));
            assert(ps@.take(i + 1).drop_last() =~= ps@.take(i as int));
            assert(ps@.take(i + 1).last() == p);
        }
        match row.get(p) {
            Some(o) => {
                let ghost mine = Seq::new(row@[p].len(), |k: int| (p, row@[p][k]));
                let mut k: usize = 0;
                proof {
                    assert(head + mine.take(0) =~= head);
                }
                while k < o.list.len()
                    invariant
                        k <= o.list@.len(),
                        o@ == row@[p],
                        mine == Seq::new(row@[p].len(), |k: int| (p, row@[p][k])),
                        orders_view(r@) == head + mine.take(k as int),
                    decreases o.list@.len() - k,
                {
                    let ghost before = r@;
                    let c: Command = o.list[k].dup();
                    let ghost cv = c@;
                    r.push((p, c));
                    proof {
                        assert(cv == o@[k as int]);
                        assert(orders_view(r@) =~= orders_view(before).push((p, cv)));
                        assert(mine.take(k + 1) =~= mine.take(k as int).push(mine[k as int]));
                        assert(orders_view(r@) =~= head + mine.take(k + 1));
                    }
                    k = k + 1;
                }
                proof {
                    assert(mine.take(k as int) =~= mine);
                }
            },
            None => {},
        }
        i = i + 1;
    }
    proof {
        assert(ps@.take(i as int) =~= ps@);
    }
    r
}

proof fn lemma_bots_keep(s: State, names: Seq<Seq<char>>)
    ensures
        state::add_bots(s, names).world == s.world,
        state::add_bots(s, names).seq == s.seq,
        state::add_bots(s, names).my_name == s.my_name,
        state::add_bots(s, names).my_color == s.my_color,
        state::add_bots(s, names).key == s.key,
    decreases names.len(),
{
    if names.len() > 0 {
        lemma_bots_keep(s, names.drop_last());
    }
}

proof fn lemma_solo_seq(w: WorldV, secret: Seq<u8>, key: Seq<u8>, name: Seq<char>, color: u8, bots: Seq<Seq<char>>, seq: u64)
    ensures
        state::solo(w, secret, key, name, color, bots, seq).seq == seq,
{
    let s0 = state::base(w, SessionKind::Solo, secret, key, name, color, seq);
    let pid = match state::pid_for(w, s0.roster, name, key) {
        Some(p) => p,
        None => 0,
    };
    let s1 = State { my_pid: pid, roster: s0.roster.insert(pid, state::me(pid, name, color, key)), ..s0 };
    lemma_bots_keep(s1, bots);
}

proof fn lemma_bot_send_keeps(s: State, t: u32, bs: Seq<u8>)
    ensures
        state::send_bots(s, t, bs).accum == s.accum,
        state::send_bots(s, t, bs).host_gone == s.host_gone,
        state::send_bots(s, t, bs).desync_at == s.desync_at,
    decreases bs.len(),
{
    if bs.len() > 0 {
        lemma_bot_send_keeps(s, t, bs.drop_last());
    }
}

proof fn lemma_ticks_keep(s: State, n: nat)
    ensures
        state::send_ticks(s, n).accum == s.accum,
        state::send_ticks(s, n).host_gone == s.host_gone,
        state::send_ticks(s, n).desync_at == s.desync_at,
    decreases n,
{
    if n > 0 {
        let t = s.next_send;
        let s1 = state::give_orders(State { local_q: Seq::empty(), ..s }, t, s.my_pid, s.local_q);
        lemma_bot_send_keeps(s1, t, pids(s.bot_q.dom()));
        lemma_ticks_keep(state::send_tick(s), (n - 1) as nat);
    }
}

pub(crate) proof fn lemma_sent_keeps(s: State)
    ensures
        state::ensure_sent(s).accum == s.accum,
        state::ensure_sent(s).host_gone == s.host_gone,
        state::ensure_sent(s).desync_at == s.desync_at,
{
    if s.next_send < state::send_limit(s) {
        lemma_ticks_keep(s, (state::send_limit(s) - s.next_send) as nat);
    }
}

// ----------------------------------------------------------------------
// Events
// ----------------------------------------------------------------------

impl Session {
    /// Sample the wall clock (watchdogs only).
    pub fn set_now(&mut self, now: u64)
        ensures
            final(self)@ == (State { now, ..old(self)@ }),
    {
        self.now = now;
    }

    /// Take one event of the transport.
    pub fn handle_ev(&mut self, ev: TransportEv)
        requires
            old(self)@.need is Nothing,
        ensures
            final(self)@ == (match ev {
                TransportEv::Connected { conn } => old(self)@,
                TransportEv::Data { conn, bytes } => state::on_data(old(self)@, conn, bytes@),
                TransportEv::Closed { conn } => state::on_closed(old(self)@, conn),
            }),
            final(self)@ == state::on_event(old(self)@, ev),
    {
        match ev {
            TransportEv::Connected { .. } => {},
            TransportEv::Data { conn, bytes } => {
                self.on_data(conn, &bytes);
            },
            TransportEv::Closed { conn } => {
                self.on_closed(conn);
            },
        }
    }

    /// The verification gauntlet: fail any check, vanish.
    fn on_data(&mut self, conn: ConnId, bytes: &Vec<u8>)
        ensures
            final(self)@ == state::on_data(old(self)@, conn, bytes@),
    {
        let env: Envelope = match Envelope::decode(bytes.as_slice()) {
            Ok(env) => env,
            Err(_) => {
                return;
            },
        };
        if !env.verify() {
            return;
        }
        match self.peer_seq.get(&env.sender) {
            Some(last) => {
                if env.seq <= *last {
                    return;
                }
            },
            None => {},
        }
        match self.conn_key.get(&conn) {
            Some(locked) => {
                if !key_eq(locked, &env.sender) {
                    return;
                }
            },
            None => {},
        }
        let ghost s0 = self@;
        self.conn_key.insert(conn, env.sender);
        self.peer_seq.insert(env.sender, env.seq);
        proof {
            assert(state::admits(s0, conn, env@));
            assert(self@ =~= state::note(s0, conn, env@));
        }
        let msg: Msg = match Msg::decode(env.payload.as_slice()) {
            Ok(msg) => msg,
            Err(_) => {
                return;
            },
        };
        let from: Option<u8> = match self.pid_of.get(&conn) {
            Some(pid) => Some(*pid),
            None => None,
        };
        match from {
            Some(pid) => {
                self.last_heard.insert(pid, self.now);
                self.handle_msg(pid, env.sender, msg);
            },
            None => {
                self.first_frame(conn, env.sender, msg);
            },
        }
    }

    fn on_closed(&mut self, conn: ConnId)
        ensures
            final(self)@ == state::on_closed(old(self)@, conn),
    {
        let _ = self.conn_key.remove(&conn);
        self.drop_claims(conn);
        match self.pid_of.remove(&conn) {
            Some(pid) => {
                let _ = self.conn_of.remove(pid);
                self.handle_down(pid);
            },
            None => {
                proof {
                    assert(self.pid_of@ =~= old(self).pid_of@);
                }
            },
        }
    }

    fn drop_claims(&mut self, conn: ConnId)
        ensures
            final(self)@ == (State {
                pending_dials: old(self)@.pending_dials.filter(|c: ClaimV| c.conn != conn),
                ..old(self)@
            }),
    {
        let ghost s0 = self@;
        let ghost keep = |c: ClaimV| c.conn != conn;
        let mut old_claims: Vec<Claim> = Vec::new();
        std::mem::swap(&mut old_claims, &mut self.pending_dials);
        let ghost all = views(old_claims@);
        let mut kept: Vec<Claim> = Vec::new();
        let mut i: usize = 0;
        reveal(Seq::filter);
        proof {
            assert(views(kept@) =~= all.take(0).filter(keep));
        }
        while i < old_claims.len()
            invariant
                i <= old_claims@.len(),
                all == views(old_claims@),
                keep == (|c: ClaimV| c.conn != conn),
                views(kept@) == all.take(i as int).filter(keep),
            decreases old_claims@.len() - i,
        {
            let c: Claim = Claim { conn: old_claims[i].conn, key: old_claims[i].key, pid: old_claims[i].pid };
            proof {
                reveal(Seq::filter);
                assert(all.take(i + 1).drop_last() =~= all.take(i as int));
                assert(all.take(i + 1).last() == c@);
                lemma_push_view(kept@, c);
            }
            if c.conn != conn {
                kept.push(c);
            }
            i = i + 1;
        }
        proof {
            assert(all.take(i as int) =~= all);
        }
        self.pending_dials = kept;
    }

    fn key_online(&self, key: &PubKey) -> (r: bool)
        ensures
            r == state::key_online(self@, key@),
    {
        let mut p: u16 = 0;
        while p < 256
            invariant
                p <= 256,
                forall|q: u8| q < p && #[trigger] self@.roster.contains_key(q) ==> self@.roster[q].key != key@,
            decreases 256 - p,
        {
            if self.owns(p as u8, key) {
                proof {
                    assert(self@.roster.contains_key(p as u8));
                }
                return true;
            }
            p = p + 1;
        }
        false
    }

    /// First frame on an anonymous link: Hello (joiner) or Dial (mesh peer).
    fn first_frame(&mut self, conn: ConnId, sender: PubKey, msg: Msg)
        ensures
            final(self)@ == state::on_first(old(self)@, conn, sender@, msg@),
    {
        match msg {
            Msg::Hello { name, color, listen_port } => {
                if self.kind != SessionKind::Host {
                    self.send_to(conn, Msg::Deny { reason: text_of("not the host") });
                    return;
                }
                if self.key_online(&sender) {
                    self.send_to(conn, Msg::Deny { reason: text_of("this key is already in the world") });
                    return;
                }
                let k = Knock { conn, key: sender, name, color, listen_port };
                proof {
                    lemma_push_view(self.lobby@, k);
                }
                self.lobby.push(k);
                if self.freeze_at.is_none() {
                    let fa: u32 = sat_add(self.world.tick, 3 * DELAY + 3);
                    self.freeze_at = Some(fa);
                    self.broadcast(Msg::Freeze { at: fa }, None);
                    self.say("a settler is arriving — world pausing…");
                }
            },
            Msg::Dial { pid } => {
                self.try_bind_dial(Claim { conn, key: sender, pid });
            },
            _ => {},
        }
    }

    /// A meshing peer claims a pid: only honor it if the roster says that pid belongs to their
    /// key. If the PeerJoined hasn't reached us yet, park the claim and retry after the next
    /// join.
    fn try_bind_dial(&mut self, c: Claim)
        ensures
            final(self)@ == state::claim(old(self)@, c@),
    {
        if self.roster.contains(c.pid) {
            if self.owns(c.pid, &c.key) {
                self.bind(c.conn, c.pid);
            } else {
                self.close(c.conn);
            }
        } else {
            proof {
                lemma_push_view(self.pending_dials@, c);
            }
            self.pending_dials.push(c);
        }
    }

    fn my_hash(&self, t: u32) -> (r: Option<u64>)
        ensures
            r == state::my_hash(self@.my_hashes, t),
    {
        let mut i: usize = 0;
        proof {
            assert(self.my_hashes@.skip(0) =~= self.my_hashes@);
        }
        while i < self.my_hashes.len()
            invariant
                i <= self.my_hashes@.len(),
                state::my_hash(self.my_hashes@.skip(i as int), t) == state::my_hash(self.my_hashes@, t),
            decreases self.my_hashes@.len() - i,
        {
            proof {
                assert(self.my_hashes@.skip(i as int).drop_first() =~= self.my_hashes@.skip(i + 1));
            }
            if self.my_hashes[i].0 == t {
                return Some(self.my_hashes[i].1);
            }
            i = i + 1;
        }
        None
    }

    fn handle_msg(&mut self, from_pid: u8, sender: PubKey, msg: Msg)
        ensures
            final(self)@ == state::on_msg(old(self)@, from_pid, sender@, msg@),
    {
        let host_key: PubKey = self.key_of_pid(self.host_pid);
        match msg {
            Msg::Cmds { tick, pid, cmds } => {
                // authorship: the envelope key must own the pid it commands
                if !self.owns(pid, &sender) {
                    return;
                }
                if tick >= self.world.tick {
                    set_orders(&mut self.pending, tick, pid, Orders { list: cmds });
                    if from_pid == self.host_pid && self.kind == SessionKind::Client {
                        self.host_seen = max32(self.host_seen, sat_add(tick, 1));
                    }
                }
            },
            Msg::HashChk { tick, hash } => {
                if !self.owns(from_pid, &sender) {
                    return;
                }
                match self.my_hash(tick) {
                    Some(mine) => {
                        if mine != hash && self.desync_at.is_none() {
                            self.desync_at = Some(tick);
                            let mut status: String = line("DESYNC at tick ", tick as u64, " vs player ");
                            push_dec(&mut status, from_pid as u64);
                            push_text(&mut status, " — world halted");
                            self.status = status;
                        }
                    },
                    None => {},
                }
            },
            // world-control verdicts: only the host's key may speak them
            Msg::Freeze { at } => {
                if !key_eq(&sender, &host_key) {
                    return;
                }
                self.freeze_at = Some(at);
                self.say("world pausing — someone is joining…");
            },
            Msg::PeerJoined { info, start_tick } => {
                if !key_eq(&sender, &host_key) {
                    return;
                }
                self.apply_join(info, start_tick);
            },
            Msg::Left { pid, from, backfill } => {
                if !key_eq(&sender, &host_key) {
                    return;
                }
                self.backfill(pid, backfill);
                self.depart(pid, from);
            },
            Msg::MigrateResume { old, resume_tick, bots, snapshot } => {
                // Accept the canonical resume if it is a legitimate election outcome, even if
                // we haven't noticed the host drop yet.
                let elected: Option<u8> = self.elect_host(old);
                let chosen: bool = match elected {
                    Some(p) => p == from_pid,
                    None => false,
                };
                if old == self.host_pid && chosen && self.owns(from_pid, &sender) {
                    self.migration = None;
                    self.need = Need::Load { old, new_host: from_pid, bots, snapshot };
                }
            },
            Msg::Deny { reason } => {
                let mut status = String::new();
                push_text(&mut status, "denied: ");
                push_text(&mut status, reason.as_str());
                proof {
                    assert(status@ =~= "denied: "@ + reason@);
                }
                self.status = status;
            },
            _ => {},
        }
    }

    fn backfill(&mut self, pid: u8, rows: Vec<(u32, Vec<Command>)>)
        ensures
            final(self)@ == state::backfilled(old(self)@, pid, backfill_view(rows@)),
    {
        let ghost s0 = self@;
        let ghost all = backfill_view(rows@);
        let mut i: usize = 0;
        proof {
            assert(all.take(0) =~= Seq::empty());
        }
        while i < rows.len()
            invariant
                i <= rows@.len(),
                all == backfill_view(rows@),
                self@ == state::backfilled(s0, pid, all.take(i as int)),
                self@.world == s0.world,
            decreases rows@.len() - i,
        {
            proof {
                assert(all.take(i + 1).drop_last() =~= all.take(i as int));
                assert(all.take(i + 1).last() == (rows@[i as int].0, commands_view(rows@[i as int].1@)));
            }
            let t: u32 = rows[i].0;
            if t >= self.world.tick {
                let cs: Vec<Command> = dup_commands(&rows[i].1);
                set_orders(&mut self.pending, t, pid, Orders { list: cs });
            }
            i = i + 1;
        }
        proof {
            assert(all.take(i as int) =~= all);
        }
    }

    /// A new settler is in: everyone runs this with identical arguments.
    fn apply_join(&mut self, info: PeerInfo, start_tick: u32)
        ensures
            final(self)@ == state::apply_join(old(self)@, info@, start_tick),
    {
        let ghost s0 = self@;
        let ghost iv = info@;
        let pid: u8 = info.pid;
        let mut status = String::new();
        push_text(&mut status, info.name.as_str());
        push_text(&mut status, " joined the world");
        proof {
            assert(status@ =~= info.name@ + " joined the world"@);
        }
        self.roster.insert(pid, info);
        // a parked Dial claim may now be verifiable
        let mut parked: Vec<Claim> = Vec::new();
        std::mem::swap(&mut parked, &mut self.pending_dials);
        let ghost claims = views(parked@);
        let ghost s1 = self@;
        proof {
            assert(s1.pending_dials =~= Seq::empty());
            assert(claims.take(0) =~= Seq::empty());
        }
        let mut i: usize = 0;
        while i < parked.len()
            invariant
                i <= parked@.len(),
                claims == views(parked@),
                self@ == state::claim_all(s1, claims.take(i as int)),
            decreases parked@.len() - i,
        {
            proof {
                assert(claims.take(i + 1).drop_last() =~= claims.take(i as int));
                assert(claims.take(i + 1).last() == parked@[i as int]@);
            }
            self.try_bind_dial(Claim { conn: parked[i].conn, key: parked[i].key, pid: parked[i].pid });
            i = i + 1;
        }
        proof {
            assert(claims.take(i as int) =~= claims);
        }
        // the frozen window is empty by definition for every pid
        let end: u32 = sat_add(start_tick, DELAY);
        fill_window(&mut self.pending, start_tick, end, &self.roster, true);
        self.next_send = max32(self.next_send, end);
        self.host_seen = max32(self.host_seen, end);
        self.starts.insert(pid, start_tick);
        self.freeze_at = None;
        self.status = status;
    }

    fn depart(&mut self, pid: u8, from: u32)
        ensures
            final(self)@ == state::depart(old(self)@, pid, from),
    {
        if !self.roster.contains(pid) {
            return;
        }
        let _ = self.roster.remove(pid);
        if self.world.tick < from {
            self.ghosts.insert(pid, from);
        }
        self.cut(pid);
        self.status = line("player ", pid as u64, " left — their base stands");
    }

    fn first_gap(&self, pid: u8) -> (r: u32)
        ensures
            r == state::first_gap(self@.pending, pid, self@.world.tick),
            r >= self@.world.tick,
    {
        let mut t: u32 = self.world.tick;
        while t < u32::MAX && row_has(&self.pending, t, pid)
            invariant
                t >= self@.world.tick,
                state::first_gap(self@.pending, pid, t) == state::first_gap(self@.pending, pid, self@.world.tick),
            decreases u32::MAX - t,
        {
            t = t + 1;
        }
        t
    }

    fn record(&self, pid: u8, lo: u32, hi: u32) -> (r: Vec<(u32, Vec<Command>)>)
        requires
            lo <= hi,
        ensures
            backfill_view(r@) == state::record(self@, pid, lo, hi),
    {
        let mut r: Vec<(u32, Vec<Command>)> = Vec::new();
        let mut t: u32 = lo;
        proof {
            assert(backfill_view(r@) =~= Seq::empty());
        }
        while t < hi
            invariant
                lo <= t <= hi,
                backfill_view(r@) == state::record(self@, pid, lo, t),
            decreases hi - t,
        {
            let ghost before = r@;
            let cs: Option<Vec<Command>> = match row_copy(&self.pending, t, pid) {
                Some(cs) => Some(cs),
                None => row_copy(&self.history, t, pid),
            };
            match cs {
                Some(cs) => {
                    r.push((t, cs));
                    proof {
                        assert(backfill_view(r@) =~= backfill_view(before).push((t, commands_view(cs@))));
                    }
                },
                None => {},
            }
            t = t + 1;
        }
        r
    }

    fn handle_down(&mut self, pid: u8)
        ensures
            final(self)@ == state::on_down(old(self)@, pid),
    {
        match self.kind {
            SessionKind::Host => {
                if !self.roster.contains(pid) {
                    return;
                }
                // the host's command record is canon: find the first tick we don't have from
                // them, backfill everyone up to it
                let from: u32 = self.first_gap(pid);
                let lo: u32 = sat_sub(self.world.tick, BACKFILL);
                let backfill: Vec<(u32, Vec<Command>)> = self.record(pid, lo, from);
                self.broadcast(Msg::Left { pid, from, backfill }, None);
                self.depart(pid, from);
            },
            SessionKind::Client => {
                let heir: bool = match self.migration {
                    Some(p) => p == pid,
                    None => false,
                };
                if pid == self.host_pid {
                    self.begin_migration();
                } else if heir {
                    // the peer we just elected also dropped: re-elect
                    self.migration = None;
                    self.begin_migration();
                }
            },
            SessionKind::Solo => {},
        }
    }

    // ------------------------------------------------------------------
    // Host migration: the world outlives any single host
    // ------------------------------------------------------------------

    /// Deterministically elect the new host: the lowest surviving non-bot pid, excluding the
    /// host that just vanished. Every survivor computes the identical answer from the identical
    /// roster. Nobody only if no human remains.
    pub fn elect_host(&self, gone: u8) -> (r: Option<u8>)
        ensures
            r == state::elect(self@.roster, gone),
            r matches Some(p) ==> state::electable(self@.roster, gone, p) && forall|k: u8| #[trigger]
                state::electable(self@.roster, gone, k) ==> p <= k,
            r is None <==> forall|k: u8| !#[trigger] state::electable(self@.roster, gone, k),
    {
        proof {
            crate::laws::successor_is_lowest(self@.roster, gone);
        }
        let mut p: u16 = 0;
        while p < 256
            invariant
                p <= 256,
                state::elect_from(self@.roster, gone, p as int) == state::elect(self@.roster, gone),
            decreases 256 - p,
        {
            let q: u8 = p as u8;
            let fit: bool = q != gone && match self.roster.get(q) {
                Some(info) => !info.bot,
                None => false,
            };
            proof {
                assert(fit == state::electable(self@.roster, gone, q));
            }
            if fit {
                proof {
                    crate::laws::successor_is_lowest(self@.roster, gone);
                }
                return Some(q);
            }
            p = p + 1;
        }
        None
    }

    /// The host's link is gone. Elect a successor; if it's me, my world is the new canon.
    fn begin_migration(&mut self)
        ensures
            final(self)@ == state::begin_migration(old(self)@),
    {
        let old: u8 = self.host_pid;
        match self.elect_host(old) {
            None => {
                self.host_gone = true;
                self.say("host left and no peers remain — world paused (your save persists)");
            },
            Some(new_host) => {
                // drop the dead host's link bookkeeping (its socket is already gone)
                let _ = self.unlink(old);
                self.migration = Some(new_host);
                if new_host == self.my_pid {
                    self.say("host vanished — taking over the world…");
                    self.need = Need::Snapshot;
                } else {
                    self.status = line("host vanished — player ", new_host as u64, " is taking over…");
                }
            },
        }
    }

    fn bots_in_roster(&self) -> (r: Vec<u8>)
        ensures
            r@ == state::bots_among(pids(self@.roster.dom()), self@.roster),
    {
        let ps: Vec<u8> = self.roster.keys();
        proof {
            pids_enumerate(self.roster@.dom(), 256);
        }
        let mut r: Vec<u8> = Vec::new();
        let mut i: usize = 0;
        while i < ps.len()
            invariant
                i <= ps@.len(),
                forall|j: int| 0 <= j < ps@.len() ==> self.roster@.contains_key(#[trigger] ps@[j]),
                r@ == state::bots_among(ps@.take(i as int), self.roster@),
            decreases ps@.len() - i,
        {
            let p: u8 = ps[i];
            proof {
                assert(self.roster@.contains_key(ps@[i as int]));
                assert(ps@.take(i + 1).drop_last() =~= ps@.take(i as int));
                assert(ps@.take(i + 1).last() == p);
            }
            match self.roster.get(p) {
                Some(info) => {
                    if info.bot {
                        r.push(p);
                    }
                },
                None => {},
            }
            i = i + 1;
        }
        proof {
            assert(ps@.take(i as int) =~= ps@);
        }
        r
    }

    /// Our world is saved: hand it to every survivor; it is ours to load next.
    pub fn offer_snapshot(&mut self, snapshot: Vec<u8>)
        requires
            old(self)@.need is Snapshot,
        ensures
            final(self)@ == state::offer_snapshot(old(self)@, snapshot@),
    {
        let bots: Vec<u8> = self.bots_in_roster();
        let msg = Msg::MigrateResume {
            old: self.host_pid,
            resume_tick: self.world.tick,
            bots: copy_bytes(&bots),
            snapshot: copy_bytes(&snapshot),
        };
        let need = Need::Load { old: self.host_pid, new_host: self.my_pid, bots, snapshot };
        self.broadcast(msg, None);
        self.need = need;
    }

    /// The snapshot we waited for was loaded, or turned out corrupt.
    pub fn resume(&mut self, loaded: Option<World>)
        requires
            old(self)@.need is Load,
        ensures
            final(self)@ == state::resume(
                old(self)@,
                match loaded {
                    Some(w) => Some(w@),
                    None => None,
                },
            ),
    {
        let mut need = Need::Nothing;
        std::mem::swap(&mut need, &mut self.need);
        match need {
            Need::Load { old, new_host, bots, snapshot } => {
                match loaded {
                    Some(w) => {
                        self.apply_migration(old, new_host, &bots, w);
                    },
                    None => {
                        self.say("migration snapshot was corrupt — world halted");
                        self.desync_at = Some(self.world.tick);
                    },
                }
            },
            _ => {},
        }
    }

    /// Adopt the canonical post-migration world. Every survivor runs this with the identical
    /// snapshot, so they converge no matter what tick each was frozen at.
    fn apply_migration(&mut self, gone: u8, new_host: u8, bots: &Vec<u8>, world: World)
        ensures
            final(self)@ == state::adopt(old(self)@, gone, new_host, bots@, world@),
    {
        let ghost s0 = self@;
        let ghost w = world@;
        let new_key: PubKey = self.key_of_pid(new_host);
        // the dead host leaves the live mesh; its settlement persists in the snapshot
        let _ = self.roster.remove(gone);
        let _ = self.unlink(gone);
        let ghost s1 = self@;
        // bots are now authored and driven by the new host
        self.rekey_bots(bots, &new_key);
        self.world = world;
        self.host_pid = new_host;
        // restart the lockstep timeline around the snapshot's tick, exactly like a join
        self.pending.clear();
        self.history.clear();
        self.ghosts.clear();
        self.starts.clear();
        self.local_q = Orders::empty();
        let from: u32 = self.world.tick;
        let end: u32 = sat_add(from, DELAY);
        fill_window(&mut self.pending, from, end, &self.roster, true);
        self.next_send = end;
        self.host_seen = end;
        if new_host == self.my_pid {
            self.kind = SessionKind::Host;
            self.queue_bots(bots);
            self.status = line("you now host the world — resumed at tick ", from as u64, "");
            proof {
                reveal_strlit("");
                assert(self.status@ =~= "you now host the world — resumed at tick "@ + dec(from as nat));
            }
        } else {
            let mut status: String = line("player ", new_host as u64, " now hosts — world resumed at tick ");
            push_dec(&mut status, from as u64);
            self.status = status;
        }
        self.host_gone = false;
        self.migration = None;
    }

    fn rekey_bots(&mut self, bots: &Vec<u8>, key: &PubKey)
        ensures
            final(self)@ == (State { roster: state::rekey(old(self)@.roster, bots@, key@), ..old(self)@ }),
    {
        let ghost s0 = self@;
        let mut i: usize = 0;
        proof {
            assert(bots@.take(0) =~= Seq::<u8>::empty());
        }
        while i < bots.len()
            invariant
                i <= bots@.len(),
                self@ == (State { roster: state::rekey(s0.roster, bots@.take(i as int), key@), ..s0 }),
            decreases bots@.len() - i,
        {
            let b: u8 = bots[i];
            let ghost r0 = self@.roster;
            proof {
                assert(bots@.take(i + 1).drop_last() =~= bots@.take(i as int));
                assert(bots@.take(i + 1).last() == b);
            }
            match self.roster.remove(b) {
                Some(p) => {
                    let info = PeerInfo {
                        pid: p.pid,
                        name: p.name,
                        color: p.color,
                        addr: p.addr,
                        key: *key,
                        bot: p.bot,
                    };
                    self.roster.insert(b, info);
                    proof {
                        assert(self.roster@ =~= r0.insert(b, PeerInfoV { key: key@, ..r0[b] }));
                    }
                },
                None => {
                    proof {
                        assert(self.roster@ =~= r0);
                    }
                },
            }
            i = i + 1;
        }
        proof {
            assert(bots@.take(i as int) =~= bots@);
        }
    }

    fn queue_bots(&mut self, bots: &Vec<u8>)
        ensures
            final(self)@ == (State { bot_q: state::add_queues(old(self)@.bot_q, bots@), ..old(self)@ }),
    {
        let ghost s0 = self@;
        let mut i: usize = 0;
        proof {
            assert(bots@.take(0) =~= Seq::<u8>::empty());
        }
        while i < bots.len()
            invariant
                i <= bots@.len(),
                self@ == (State { bot_q: state::add_queues(s0.bot_q, bots@.take(i as int)), ..s0 }),
            decreases bots@.len() - i,
        {
            let b: u8 = bots[i];
            proof {
                assert(bots@.take(i + 1).drop_last() =~= bots@.take(i as int));
                assert(bots@.take(i + 1).last() == b);
            }
            if !self.bot_q.contains(b) {
                self.bot_q.insert(b, Orders::empty());
            }
            i = i + 1;
        }
        proof {
            assert(bots@.take(i as int) =~= bots@);
        }
    }

    // ------------------------------------------------------------------
    // Admission, watchdogs, leaving
    // ------------------------------------------------------------------

    /// Has the world reached the freeze point, so that a snapshot of it lets the lobby in?
    pub fn frozen(&self) -> (r: bool)
        ensures
            r == state::frozen(self@),
    {
        match self.freeze_at {
            Some(fa) => self.world.tick >= fa,
            None => false,
        }
    }

    /// The links of the joiners in the lobby, in the order in which they knocked.
    pub fn lobby_conns(&self) -> (r: Vec<ConnId>)
        ensures
            r@ == Seq::new(self@.lobby.len(), |i: int| self@.lobby[i].conn),
    {
        let mut r: Vec<ConnId> = Vec::new();
        let mut i: usize = 0;
        while i < self.lobby.len()
            invariant
                i <= self.lobby@.len(),
                r@.len() == i,
                forall|j: int| 0 <= j < i ==> r@[j] == self@.lobby[j].conn,
            decreases self.lobby@.len() - i,
        {
            r.push(self.lobby[i].conn);
            i = i + 1;
        }
        proof {
            assert(r@ =~= Seq::new(self@.lobby.len(), |i: int| self@.lobby[i].conn));
        }
        r
    }

    fn roster_list(&self) -> (r: Vec<PeerInfo>)
        ensures
            peers_view(r@) == state::peers_in(pids(self@.roster.dom()), self@.roster),
    {
        let ps: Vec<u8> = self.roster.keys();
        proof {
            pids_enumerate(self.roster@.dom(), 256);
        }
        let mut r: Vec<PeerInfo> = Vec::new();
        let mut i: usize = 0;
        while i < ps.len()
            invariant
                i <= ps@.len(),
                r@.len() == i,
                forall|j: int| 0 <= j < ps@.len() ==> self.roster@.contains_key(#[trigger] ps@[j]),
                forall|j: int| 0 <= j < i ==> (#[trigger] r@[j])@ == self.roster@[ps@[j]],
            decreases ps@.len() - i,
        {
            proof {
                assert(self.roster@.contains_key(ps@[i as int]));
            }
            match self.roster.get(ps[i]) {
                Some(info) => {
                    r.push(info.dup());
                },
                None => {},
            }
            i = i + 1;
        }
        proof {
            assert(peers_view(r@) =~= state::peers_in(ps@, self.roster@));
        }
        r
    }

    fn let_in(&mut self, at: u32, snapshot: &Vec<u8>, k: &Knock, ip: &String)
        ensures
            final(self)@ == state::let_in(old(self)@, at, snapshot@, k@, ip@),
    {
        match pid_for(&self.world, &self.roster, k.name.as_str(), &k.key) {
            None => {
                self.send_to(k.conn, Msg::Deny { reason: text_of("world is full") });
            },
            Some(pid) => {
                let mut addr = String::new();
                push_text(&mut addr, ip.as_str());
                push_text(&mut addr, ":");
                push_dec(&mut addr, k.listen_port as u64);
                proof {
                    assert(addr@ =~= ip@ + ":"@ + dec(k.listen_port as nat));
                }
                let info = PeerInfo { pid, name: k.name.clone(), color: k.color, addr, key: k.key, bot: false };
                proof {
                    assert(info@ =~= state::guest(k@, pid, ip@));
                }
                let peers: Vec<PeerInfo> = self.roster_list();
                self.send_to(k.conn, Msg::Welcome { pid, start_tick: at, peers, snapshot: copy_bytes(snapshot) });
                self.bind(k.conn, pid);
                self.broadcast(Msg::PeerJoined { info: info.dup(), start_tick: at }, Some(pid));
                self.apply_join(info, at);
            },
        }
    }

    /// Host: the world has reached the freeze point and `snapshot` holds it. Let the lobby in;
    /// `ips` are the joiners' addresses, in the order in which they knocked.
    pub fn try_admit(&mut self, snapshot: &Vec<u8>, ips: &Vec<String>)
        requires
            ips@.len() == old(self)@.lobby.len(),
        ensures
            final(self)@ == state::try_admit(old(self)@, snapshot@, views(ips@)),
    {
        if !self.frozen() {
            return;
        }
        let ghost s0 = self@;
        let at: u32 = match self.freeze_at {
            Some(fa) => fa,
            None => 0,
        };
        let mut lobby: Vec<Knock> = Vec::new();
        std::mem::swap(&mut lobby, &mut self.lobby);
        let ghost ks = views(lobby@);
        let ghost s1 = self@;
        proof {
            assert(s1.lobby =~= Seq::empty());
            assert(ks.take(0) =~= Seq::empty());
        }
        let mut i: usize = 0;
        while i < lobby.len()
            invariant
                i <= lobby@.len(),
                ips@.len() == lobby@.len(),
                ks == views(lobby@),
                self@ == state::let_all_in(s1, at, snapshot@, ks.take(i as int), views(ips@)),
            decreases lobby@.len() - i,
        {
            proof {
                assert(ks.take(i + 1).drop_last() =~= ks.take(i as int));
                assert(ks.take(i + 1).last() == lobby@[i as int]@);
            }
            self.let_in(at, snapshot, &lobby[i], &ips[i]);
            i = i + 1;
        }
        proof {
            assert(ks.take(i as int) =~= ks);
        }
    }

    fn silent(&self, pid: u8) -> (r: bool)
        ensures
            r == state::silent(self@, pid),
    {
        match self.last_heard.get(pid) {
            Some(t) => self.now > *t && self.now - *t > PEER_TIMEOUT_NS,
            None => false,
        }
    }

    /// Client: a host that has gone silent must also trigger migration, not just a clean
    /// socket close.
    fn host_watchdog(&mut self)
        ensures
            final(self)@ == state::host_watchdog(old(self)@),
    {
        if self.migration.is_some() {
            return;
        }
        if self.silent(self.host_pid) {
            self.say("host went silent — migrating…");
            self.begin_migration();
        }
    }

    /// Host: liveness watchdog over the wall clock.
    fn watchdog(&mut self)
        ensures
            final(self)@ == state::watchdog(old(self)@),
    {
        let ghost s0 = self@;
        let ps: Vec<u8> = self.roster.keys();
        let mut dead: Vec<u8> = Vec::new();
        let mut i: usize = 0;
        while i < ps.len()
            invariant
                i <= ps@.len(),
                self@ == s0,
                dead@ == state::dead_among(s0, ps@.take(i as int)),
            decreases ps@.len() - i,
        {
            let p: u8 = ps[i];
            proof {
                assert(ps@.take(i + 1).drop_last() =~= ps@.take(i as int));
                assert(ps@.take(i + 1).last() == p);
            }
            if p != self.my_pid && !self.bot_q.contains(p) && self.silent(p) {
                dead.push(p);
            }
            i = i + 1;
        }
        proof {
            assert(ps@.take(i as int) =~= ps@);
            assert(dead@.take(0) =~= Seq::<u8>::empty());
        }
        let mut k: usize = 0;
        while k < dead.len()
            invariant
                k <= dead@.len(),
                self@ == state::bury_all(s0, dead@.take(k as int)),
            decreases dead@.len() - k,
        {
            let p: u8 = dead[k];
            proof {
                assert(dead@.take(k + 1).drop_last() =~= dead@.take(k as int));
                assert(dead@.take(k + 1).last() == p);
            }
            self.status = line("player ", p as u64, " timed out");
            self.cut(p);
            self.handle_down(p);
            k = k + 1;
        }
        proof {
            assert(dead@.take(k as int) =~= dead@);
        }
    }

    /// The upkeep of one update, after its events. Whether the update goes on: a migration in
    /// flight freezes the world.
    pub fn tend(&mut self) -> (r: bool)
        ensures
            final(self)@ == state::tend(old(self)@),
            r == (old(self)@.migration is None),
    {
        if self.migration.is_some() {
            self.accum = 0;
            return false;
        }
        match self.kind {
            SessionKind::Host => {
                self.watchdog();
            },
            SessionKind::Client => {
                self.host_watchdog();
            },
            SessionKind::Solo => {},
        }
        true
    }

    /// Graceful exit: close every link so peers see us go immediately (the host then
    /// broadcasts the canonical departure record).
    pub fn leave(&mut self)
        ensures
            final(self)@ == state::leave(old(self)@),
    {
        let ghost s0 = self@;
        let conns: Vec<ConnId> = self.links(None);
        let mut i: usize = 0;
        proof {
            assert(state::close_all(s0.outbox, conns@.take(0)) =~= s0.outbox);
        }
        while i < conns.len()
            invariant
                i <= conns@.len(),
                self@ == (State { outbox: state::close_all(s0.outbox, conns@.take(i as int)), ..s0 }),
            decreases conns@.len() - i,
        {
            self.close(conns[i]);
            proof {
                assert(state::close_all(s0.outbox, conns@.take(i + 1)) =~= state::close_all(
                    s0.outbox,
                    conns@.take(i as int),
                ).push(ActionV::Close { conn: conns@[i as int] }));
            }
            i = i + 1;
        }
        proof {
            assert(conns@.take(i as int) =~= conns@);
        }
        self.conn_of.clear();
        self.pid_of.clear();
        self.conn_key.clear();
    }

    /// For headless seed nodes: stay in the roster as the pacing host, but don't found a
    /// settlement (drops the auto-queued Join).
    pub fn skip_settle(&mut self)
        ensures
            final(self)@ == state::skip_settle(old(self)@),
    {
        let ghost keep = |c: CommandV| !(c is Join);
        let mut q: Orders = Orders::empty();
        std::mem::swap(&mut q, &mut self.local_q);
        let ghost all = q@;
        let mut kept: Orders = Orders::empty();
        let mut i: usize = 0;
        proof {
            reveal(Seq::filter);
            assert(kept@ =~= all.take(0).filter(keep));
        }
        while i < q.list.len()
            invariant
                i <= q.list@.len(),
                all == q@,
                keep == (|c: CommandV| !(c is Join)),
                kept@ == all.take(i as int).filter(keep),
            decreases q.list@.len() - i,
        {
            proof {
                reveal(Seq::filter);
                assert(all.take(i + 1).drop_last() =~= all.take(i as int));
                assert(all.take(i + 1).last() == q.list@[i as int]@);
            }
            let join: bool = match &q.list[i] {
                Command::Join { .. } => true,
                _ => false,
            };
            if !join {
                kept.push(q.list[i].dup());
            }
            i = i + 1;
        }
        proof {
            assert(all.take(i as int) =~= all);
        }
        self.local_q = kept;
    }

    // ------------------------------------------------------------------
    // Going over the wire
    // ------------------------------------------------------------------

    /// Hand over what the transport has to do.
    pub fn take_actions(&mut self) -> (r: Vec<Action>)
        ensures
            views(r@) == old(self)@.outbox,
            final(self)@ == (State { outbox: Seq::empty(), ..old(self)@ }),
    {
        let mut r: Vec<Action> = Vec::new();
        std::mem::swap(&mut r, &mut self.outbox);
        proof {
            assert(self@.outbox =~= Seq::empty());
        }
        r
    }

    /// The frame of an outgoing message, under the number it was given.
    pub fn seal(&self, seq: u64, msg: &Msg) -> (r: Option<Vec<u8>>)
        ensures
            sealed(self@.secret, self@.key, seq, msg@, r),
            is_pair(self@.secret, self@.key) && r is Some && put_msg(msg@).len() < 0x1_0000_0000 ==> {
                &&& envelope_of(r->0@) is Some
                &&& envelope_valid(envelope_of(r->0@)->0)
            },
    {
        Envelope::seal(&self.identity, seq, msg)
    }

    /// Hand over what the transport has to do, sealed and ready to go.
    pub fn outgoing(&mut self) -> (r: Vec<Out>)
        ensures
            r@.len() == old(self)@.outbox.len(),
            forall|i: int|
                0 <= i < r@.len() ==> goes_out(old(self)@.secret, old(self)@.key, old(self)@.outbox[i], #[trigger] r@[i]),
            final(self)@ == (State { outbox: Seq::empty(), ..old(self)@ }),
    {
        let ghost s0 = self@;
        let actions: Vec<Action> = self.take_actions();
        let mut r: Vec<Out> = Vec::new();
        let mut i: usize = 0;
        while i < actions.len()
            invariant
                i <= actions@.len(),
                r@.len() == i,
                views(actions@) == s0.outbox,
                self@ == (State { outbox: Seq::empty(), ..s0 }),
                forall|j: int|
                    0 <= j < i ==> goes_out(s0.secret, s0.key, s0.outbox[j], #[trigger] r@[j]),
            decreases actions@.len() - i,
        {
            proof {
                assert(s0.outbox[i as int] == actions@[i as int]@);
            }
            match &actions[i] {
                Action::Send { to, seq, msg } => {
                    let frame: Option<Vec<u8>> = self.seal(*seq, msg);
                    match frame {
                        Some(bytes) => {
                            r.push(Out::Frame { to: copy_conns(to), bytes });
                        },
                        None => {
                            r.push(Out::Unsealed);
                        },
                    }
                },
                Action::Close { conn } => {
                    r.push(Out::Close { conn: *conn });
                },
            }
            proof {
                assert(goes_out(s0.secret, s0.key, s0.outbox[i as int], r@[i as int]));
            }
            i = i + 1;
        }
        r
    }

    /// Put everything that waits to go out onto the transport.
    pub fn flush<T: Transport>(&mut self, transport: &mut T)
        ensures
            final(self)@ == (State { outbox: Seq::empty(), ..old(self)@ }),
            exists|outs: Seq<Out>| #[trigger]
                all_go_out(old(self)@.secret, old(self)@.key, old(self)@.outbox, outs) && final(transport).sent() == old(
                    transport,
                ).sent() + sent_all(outs),
    {
        let outs: Vec<Out> = self.outgoing();
        let ghost before = transport.sent();
        let mut i: usize = 0;
        proof {
            assert(before + sent_all(outs@.take(0)) =~= before);
        }
        while i < outs.len()
            invariant
                i <= outs@.len(),
                transport.sent() == before + sent_all(outs@.take(i as int)),
            decreases outs@.len() - i,
        {
            let ghost mid = transport.sent();
            let ghost out = outs@[i as int];
            proof {
                assert(outs@.take(i + 1).drop_last() =~= outs@.take(i as int));
                assert(outs@.take(i + 1).last() == out);
            }
            match &outs[i] {
                Out::Frame { to, bytes } => {
                    let mut k: usize = 0;
                    proof {
                        assert(mid + sent_of(out).take(0) =~= mid);
                    }
                    while k < to.len()
                        invariant
                            k <= to@.len(),
                            out == (Out::Frame { to: *to, bytes: *bytes }),
                            transport.sent() == mid + sent_of(out).take(k as int),
                        decreases to@.len() - k,
                    {
                        transport.send(to[k], bytes.as_slice());
                        proof {
                            assert(mid + sent_of(out).take(k + 1) =~= (mid + sent_of(out).take(k as int)).push(
                                sent_of(out)[k as int],
                            ));
                        }
                        k = k + 1;
                    }
                    proof {
                        assert(sent_of(out).take(k as int) =~= sent_of(out));
                    }
                },
                Out::Close { conn } => {
                    transport.close(*conn);
                    proof {
                        assert(mid.push(SentV::Close { conn: *conn }) =~= mid + sent_of(out));
                    }
                },
                Out::Unsealed => {
                    proof {
                        assert(mid + sent_of(out) =~= mid);
                    }
                },
            }
            proof {
                assert(before + sent_all(outs@.take(i + 1)) =~= before + sent_all(outs@.take(i as int)) + sent_of(out));
            }
            i = i + 1;
        }
        proof {
            assert(outs@.take(i as int) =~= outs@);
            assert(all_go_out(old(self)@.secret, old(self)@.key, old(self)@.outbox, outs@));
        }
    }

    // ------------------------------------------------------------------
    // Joining
    // ------------------------------------------------------------------

    /// Enter one welcomed peer, with what dialling it gave.
    fn meet(&mut self, p: PeerInfo, dialled: Option<ConnId>)
        ensures
            final(self)@ == state::meet(old(self)@, p@, dialled),
    {
        let ghost pv = p@;
        let dial: bool = must_dial(&p, self.my_pid);
        let pid: u8 = p.pid;
        let key: PubKey = p.key;
        let mut lost: String = line("could not reach peer ", pid as u64, " at ");
        push_text(&mut lost, p.addr.as_str());
        self.roster.insert(pid, p);
        if !dial {
            return;
        }
        match dialled {
            Some(conn) => {
                self.conn_key.insert(conn, key);
                self.bind(conn, pid);
                // queued by the transport until the dial completes
                let my_pid: u8 = self.my_pid;
                self.send_to(conn, Msg::Dial { pid: my_pid });
            },
            None => {
                self.status = lost;
            },
        }
    }

    /// A verified `Welcome` arrived: build the client session around the loaded snapshot and
    /// mesh out to every peer in the roster. `dialled` holds, for each of the peers, the link
    /// that dialling it gave. Whatever followed the Welcome goes to `handle_ev` next.
    pub fn from_welcome(
        identity: Identity,
        name: &str,
        color: u8,
        seq: u64,
        now: u64,
        host_conn: ConnId,
        welcome: Welcome,
        world: Option<World>,
        dialled: &Vec<Option<ConnId>>,
    ) -> (r: Result<Session, String>)
        requires
            dialled@.len() == welcome@.peers.len(),
        ensures
            match r {
                Ok(s) => state::lists_host(welcome@.peers, welcome@.host_key) && world is Some && s@ == state::welcomed(
                    world->0@,
                    identity.secret(),
                    identity.public(),
                    name@,
                    color,
                    seq,
                    now,
                    host_conn,
                    welcome@.host_key,
                    welcome@.host_seq,
                    welcome@.pid,
                    welcome@.start_tick,
                    welcome@.peers,
                    dialled@,
                ),
                Err(why) => if !state::lists_host(welcome@.peers, welcome@.host_key) {
                    why@ == "host key mismatch in Welcome"@
                } else {
                    world is None && why@ == "bad snapshot"@
                },
            },
    {
        let ghost wv = welcome@;
        // the roster's host entry must agree with the key that signed the Welcome, or someone
        // is impersonating
        if !lists_host(&welcome.peers, &welcome.host_key) {
            return Err(text_of("host key mismatch in Welcome"));
        }
        let world: World = match world {
            Some(w) => w,
            None => {
                return Err(text_of("bad snapshot"));
            },
        };
        let ghost w = world@;
        let ghost secret = identity.secret();
        let ghost key = identity.public();
        let mut s = Session::base(world, SessionKind::Client, identity, name, color, seq);
        let my_key: PubKey = s.identity.public_key();
        let pid: u8 = welcome.pid;
        // stamp the clock before any bind: bind records when a peer was last heard
        s.now = now;
        s.my_pid = pid;
        let info = PeerInfo { pid, name: text_of(name), color, addr: String::new(), key: my_key, bot: false };
        proof {
            assert(info@ =~= state::me(pid, name@, color, key));
        }
        s.roster.insert(pid, info);
        s.conn_key.insert(host_conn, welcome.host_key);
        s.peer_seq.insert(welcome.host_key, welcome.host_seq);
        s.bind(host_conn, HOST_PID);
        let ghost s1 = s@;
        let ghost ps = wv.peers;
        let mut i: usize = 0;
        proof {
            assert(ps.take(0) =~= Seq::empty());
        }
        while i < welcome.peers.len()
            invariant
                i <= welcome.peers@.len(),
                ps == peers_view(welcome.peers@),
                dialled@.len() == ps.len(),
                s@ == state::meet_all(s1, ps.take(i as int), dialled@),
            decreases welcome.peers@.len() - i,
        {
            proof {
                assert(ps.take(i + 1).drop_last() =~= ps.take(i as int));
                assert(ps.take(i + 1).last() == welcome.peers@[i as int]@);
            }
            s.meet(welcome.peers[i].dup(), dialled[i]);
            i = i + 1;
        }
        proof {
            assert(ps.take(i as int) =~= ps);
        }
        let from: u32 = welcome.start_tick;
        s.open_timeline(from);
        s.host_seen = sat_add(from, DELAY);
        s.status = line("joined as player ", pid as u64, "");
        proof {
            reveal_strlit("");
            assert(s.status@ =~= "joined as player "@ + dec(pid as nat));
        }
        Ok(s)
    }
}

/// A frame or a closing on its way out.
#[allow(inconsistent_fields)]
#[derive(Debug)]
pub enum Out {
    Frame { to: Vec<ConnId>, bytes: Vec<u8> },
    Close { conn: ConnId },
    /// The curve library refused to sign the message.
    Unsealed,
}

/// Is `out` what an action becomes on its way out?
pub open spec fn goes_out(secret: Seq<u8>, key: Seq<u8>, a: ActionV, out: Out) -> bool {
    match a {
        ActionV::Send { to, seq, msg } => match out {
            Out::Frame { to: links, bytes } => links@ == to && sealed(secret, key, seq, msg, Some(bytes)),
            Out::Unsealed => sealed(secret, key, seq, msg, None),
            Out::Close { conn } => false,
        },
        ActionV::Close { conn } => out == (Out::Close { conn }),
    }
}

/// Are these what some actions become on their way out, one for one?
pub open spec fn all_go_out(secret: Seq<u8>, key: Seq<u8>, actions: Seq<ActionV>, outs: Seq<Out>) -> bool {
    &&& outs.len() == actions.len()
    &&& forall|i: int| 0 <= i < outs.len() ==> goes_out(secret, key, actions[i], #[trigger] outs[i])
}

/// What is handed to the transport for an `Out`: a frame for every link, or the close.
pub open spec fn sent_of(out: Out) -> Seq<SentV> {
    match out {
        Out::Frame { to, bytes } => Seq::new(to@.len(), |k: int| SentV::Frame { conn: to@[k], bytes: bytes@ }),
        Out::Close { conn } => seq![SentV::Close { conn }],
        Out::Unsealed => Seq::empty(),
    }
}

pub open spec fn sent_all(outs: Seq<Out>) -> Seq<SentV>
    decreases outs.len(),
{
    if outs.len() == 0 {
        Seq::empty()
    } else {
        sent_all(outs.drop_last()) + sent_of(outs.last())
    }
}

fn copy_conns(v: &Vec<ConnId>) -> (r: Vec<ConnId>)
    ensures
        r@ == v@,
{
    vstd::slice::slice_to_vec(v.as_slice())
}

/// What a host's Welcome holds, with the key and the number it was sealed with.
#[derive(Debug)]
pub struct Welcome {
    pub host_key: PubKey,
    pub host_seq: u64,
    pub pid: u8,
    pub start_tick: u32,
    pub peers: Vec<PeerInfo>,
    pub snapshot: Vec<u8>,
}

/// A Welcome by its contents.
#[verifier::ext_equal]
pub struct WelcomeV {
    pub host_key: Seq<u8>,
    pub host_seq: u64,
    pub pid: u8,
    pub start_tick: u32,
    pub peers: Seq<PeerInfoV>,
    pub snapshot: Seq<u8>,
}

impl View for Welcome {
    type V = WelcomeV;

    open spec fn view(&self) -> WelcomeV {
        WelcomeV {
            host_key: self.host_key@,
            host_seq: self.host_seq,
            pid: self.pid,
            start_tick: self.start_tick,
            peers: peers_view(self.peers@),
            snapshot: self.snapshot@,
        }
    }
}

/// Does the player with the pid `my_pid` have to dial this peer?
pub fn must_dial(p: &PeerInfo, my_pid: u8) -> (r: bool)
    ensures
        r == state::to_dial(p@, my_pid),
{
    p.pid != HOST_PID && p.pid != my_pid && !p.addr.as_str().is_empty()
}

/// Does the first host entry of the list carry this key?
pub fn lists_host(peers: &Vec<PeerInfo>, key: &PubKey) -> (r: bool)
    ensures
        r == state::lists_host(peers_view(peers@), key@),
{
    let ghost ps = peers_view(peers@);
    let mut i: usize = 0;
    proof {
        assert(ps.skip(0) =~= ps);
    }
    while i < peers.len()
        invariant
            i <= peers@.len(),
            ps == peers_view(peers@),
            state::lists_host(ps.skip(i as int), key@) == state::lists_host(ps, key@),
        decreases peers@.len() - i,
    {
        proof {
            assert(ps.skip(i as int).drop_first() =~= ps.skip(i + 1));
            assert(ps.skip(i as int)[0] == peers@[i as int]@);
        }
        if peers[i].pid == HOST_PID {
            return key_eq(&peers[i].key, key);
        }
        i = i + 1;
    }
    false
}

} // verus!
