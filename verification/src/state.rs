//! The lockstep session as a state machine: what every event and every call does to it.
//!
//! The session owns no sockets and no simulation. It is a state; what it wants done outside
//! (frames to send, links to close, a world to save or to load) it writes down, and what was
//! done outside it is told. Everything here is a function from state to state.

use crate::command::CommandV;
use crate::protocol::{envelope_of, envelope_valid, msg_of, EnvelopeV, MsgV, PeerInfoV, HOST_PID};
use crate::tables::{from_tick, pids};
use crate::text::dec;
use crate::transport::TransportEv;
use vstd::prelude::*;

verus! {

/// Length of a tick in nanoseconds: ten ticks a second.
pub const TICK_NS: u64 = 100_000_000;

/// Input delay in ticks: the lockstep latency budget.
pub const DELAY: u32 = 3;

/// Ticks between two state checksums.
pub const HASH_EVERY: u32 = 32;

/// Ticks of executed commands kept for the record.
pub const HISTORY_KEEP: u32 = 128;

/// The most ticks one update runs.
pub const MAX_CATCHUP: u32 = 8;

/// The most checksums kept.
pub const HASHES_KEPT: usize = 64;

/// Anyone silent this long, in nanoseconds, is treated as gone.
pub const PEER_TIMEOUT_NS: u64 = 30_000_000_000;

/// How far back a departure record reaches, in ticks.
pub const BACKFILL: u32 = 16;

/// Settlements a world has room for.
pub const MAX_PLAYERS: u8 = 8;

/// Opaque handle to one peer link. Never reused within a session.
pub type ConnId = u64;

#[derive(Clone, Copy, Debug, PartialEq, Eq, Structural)]
pub enum SessionKind {
    Solo,
    Host,
    Client,
}

/// A settlement on record, as far as the session reads it.
#[verifier::ext_equal]
pub struct PlayerV {
    pub joined: bool,
    pub name: Seq<char>,
    pub key: Seq<u8>,
}

/// The world, as far as the session reads it.
#[verifier::ext_equal]
pub struct WorldV {
    pub tick: u32,
    pub players: Seq<PlayerV>,
}

/// A joiner knocking, waiting for the freeze point.
#[verifier::ext_equal]
pub struct KnockV {
    pub conn: u64,
    pub key: Seq<u8>,
    pub name: Seq<char>,
    pub color: u8,
    pub listen_port: u16,
}

/// A claim to a pid that the roster does not know yet.
#[verifier::ext_equal]
pub struct ClaimV {
    pub conn: u64,
    pub key: Seq<u8>,
    pub pid: u8,
}

/// Something for the transport to do.
#[allow(inconsistent_fields)]
#[verifier::ext_equal]
pub enum ActionV {
    /// Seal the message under this number and send it on each of the links.
    Send { to: Seq<u64>, seq: u64, msg: MsgV },
    Close { conn: u64 },
}

/// Something for the simulation to do before the session goes on.
#[verifier::ext_equal]
pub enum NeedV {
    Nothing,
    /// The bytes of our own world.
    Snapshot,
    /// The world in these bytes.
    Load { old: u8, new_host: u8, bots: Seq<u8>, snapshot: Seq<u8> },
}

pub type Row = Map<u8, Seq<CommandV>>;

/// Everything a session remembers.
#[verifier::ext_equal]
pub struct State {
    pub world: WorldV,
    pub kind: SessionKind,
    pub my_pid: u8,
    pub my_name: Seq<char>,
    pub my_color: u8,
    pub roster: Map<u8, PeerInfoV>,
    pub status: Seq<char>,
    pub desync_at: Option<u32>,
    /// Time banked toward the next tick, in nanoseconds.
    pub accum: u64,
    /// Our own key pair: what signs, and what the world knows us by.
    pub secret: Seq<u8>,
    pub key: Seq<u8>,
    /// Next outbound envelope number.
    pub seq: u64,
    /// Highest number seen per sender key.
    pub peer_seq: Map<Seq<u8>, u64>,
    /// Each link is locked to the first key that speaks on it.
    pub conn_key: Map<u64, Seq<u8>>,
    /// Who paces the clock and arbitrates departures.
    pub host_pid: u8,
    pub pid_of: Map<u64, u8>,
    pub conn_of: Map<u8, u64>,
    pub pending_dials: Seq<ClaimV>,
    /// First tick we have not sent our commands for.
    pub next_send: u32,
    pub pending: Map<u32, Row>,
    pub history: Map<u32, Row>,
    /// Departed peers whose final commands must still execute: first empty tick.
    pub ghosts: Map<u8, u32>,
    /// Newcomers: the tick from which on their commands are owed.
    pub starts: Map<u8, u32>,
    /// Host commands exist for the ticks before this one.
    pub host_seen: u32,
    /// Wall clock in nanoseconds, for the watchdogs only.
    pub now: u64,
    pub last_heard: Map<u8, u64>,
    pub freeze_at: Option<u32>,
    pub lobby: Seq<KnockV>,
    pub local_q: Seq<CommandV>,
    pub bot_q: Map<u8, Seq<CommandV>>,
    pub my_hashes: Seq<(u32, u64)>,
    pub host_gone: bool,
    /// The successor elected in a host migration that is in flight.
    pub migration: Option<u8>,
    pub need: NeedV,
    pub outbox: Seq<ActionV>,
}

pub open spec fn no_key() -> Seq<u8> {
    Seq::new(32, |i: int| 0u8)
}

pub open spec fn sat_add(a: u32, b: u32) -> u32 {
    if a + b > u32::MAX {
        u32::MAX
    } else {
        (a + b) as u32
    }
}

pub open spec fn sat_sub(a: u32, b: u32) -> u32 {
    if a < b {
        0
    } else {
        (a - b) as u32
    }
}

pub open spec fn max32(a: u32, b: u32) -> u32 {
    if a < b {
        b
    } else {
        a
    }
}

// ----------------------------------------------------------------------
// Sending
// ----------------------------------------------------------------------

/// The links of the players `ps`, but for the player `except`.
pub open spec fn links(ps: Seq<u8>, conn_of: Map<u8, u64>, except: Option<u8>) -> Seq<u64>
    decreases ps.len(),
{
    if ps.len() == 0 {
        Seq::empty()
    } else {
        let head = links(ps.drop_last(), conn_of, except);
        if Some(ps.last()) == except {
            head
        } else {
            head.push(conn_of[ps.last()])
        }
    }
}

/// The first envelope number of a session begun at a wall-clock millisecond: a later session
/// outranks the frames of an earlier one.
pub open spec fn first_seq(ms: u64) -> u64 {
    ((ms * 1024) % 0x1_0000_0000_0000_0000) as u64
}

pub open spec fn next_seq(seq: u64) -> u64 {
    if seq == u64::MAX {
        seq
    } else {
        (seq + 1) as u64
    }
}

/// Seal once, send on each of the links.
pub open spec fn emit(s: State, to: Seq<u64>, msg: MsgV) -> State {
    State { outbox: s.outbox.push(ActionV::Send { to, seq: s.seq, msg }), seq: next_seq(s.seq), ..s }
}

pub open spec fn send_to(s: State, conn: u64, msg: MsgV) -> State {
    emit(s, seq![conn], msg)
}

pub open spec fn broadcast(s: State, msg: MsgV, except: Option<u8>) -> State {
    emit(s, links(pids(s.conn_of.dom()), s.conn_of, except), msg)
}

pub open spec fn close(s: State, conn: u64) -> State {
    State { outbox: s.outbox.push(ActionV::Close { conn }), ..s }
}

pub open spec fn bind(s: State, conn: u64, pid: u8) -> State {
    State {
        pid_of: s.pid_of.insert(conn, pid),
        conn_of: s.conn_of.insert(pid, conn),
        last_heard: s.last_heard.insert(pid, s.now),
        ..s
    }
}

/// Forget the link of a player, if there is one.
pub open spec fn unlink(s: State, pid: u8) -> State {
    if s.conn_of.contains_key(pid) {
        State {
            conn_of: s.conn_of.remove(pid),
            pid_of: s.pid_of.remove(s.conn_of[pid]),
            conn_key: s.conn_key.remove(s.conn_of[pid]),
            ..s
        }
    } else {
        s
    }
}

/// Forget the link of a player and close it.
pub open spec fn cut(s: State, pid: u8) -> State {
    if s.conn_of.contains_key(pid) {
        close(unlink(s, pid), s.conn_of[pid])
    } else {
        s
    }
}

pub open spec fn key_of_pid(roster: Map<u8, PeerInfoV>, pid: u8) -> Seq<u8> {
    if roster.contains_key(pid) {
        roster[pid].key
    } else {
        no_key()
    }
}

pub open spec fn host_key(s: State) -> Seq<u8> {
    key_of_pid(s.roster, s.host_pid)
}

/// Does the roster say that `pid` belongs to `key`?
pub open spec fn owns(s: State, pid: u8, key: Seq<u8>) -> bool {
    s.roster.contains_key(pid) && s.roster[pid].key == key
}

// ----------------------------------------------------------------------
// Command rows
// ----------------------------------------------------------------------

pub open spec fn row_at(m: Map<u32, Row>, t: u32) -> Row {
    if m.contains_key(t) {
        m[t]
    } else {
        Map::empty()
    }
}

pub open spec fn set_orders(m: Map<u32, Row>, t: u32, pid: u8, cs: Seq<CommandV>) -> Map<u32, Row> {
    m.insert(t, row_at(m, t).insert(pid, cs))
}

/// Give every player in `who` an empty entry: those without one, or all of them.
pub open spec fn fill_row(row: Row, who: Set<u8>, all: bool) -> Row {
    Map::new(
        |p: u8| row.contains_key(p) || who.contains(p),
        |p: u8|
            if who.contains(p) && (all || !row.contains_key(p)) {
                Seq::empty()
            } else {
                row[p]
            },
    )
}

/// Fill the rows of the ticks from `from` up to `to`.
pub open spec fn fill_window(m: Map<u32, Row>, from: u32, to: u32, who: Set<u8>, all: bool) -> Map<u32, Row> {
    Map::new(
        |t: u32| m.contains_key(t) || from <= t < to,
        |t: u32|
            if from <= t < to {
                fill_row(row_at(m, t), who, all)
            } else {
                m[t]
            },
    )
}

// ----------------------------------------------------------------------
// Who gets which pid
// ----------------------------------------------------------------------

/// May the holder of `key` take the settlement on record at `i` back under `name`?
pub open spec fn reclaims(w: WorldV, roster: Map<u8, PeerInfoV>, name: Seq<char>, key: Seq<u8>, i: int) -> bool {
    &&& w.players[i].joined
    &&& !roster.contains_key((i % 256) as u8)
    &&& w.players[i].name == name
    &&& w.players[i].key == no_key() || w.players[i].key == key
}

pub open spec fn first_reclaim(
    w: WorldV,
    roster: Map<u8, PeerInfoV>,
    name: Seq<char>,
    key: Seq<u8>,
    i: int,
) -> Option<u8>
    decreases w.players.len() - i,
{
    if i < 0 || i >= w.players.len() {
        None
    } else if reclaims(w, roster, name, key, i) {
        Some((i % 256) as u8)
    } else {
        first_reclaim(w, roster, name, key, i + 1)
    }
}

/// Is the slot neither online nor on record?
pub open spec fn slot_free(w: WorldV, roster: Map<u8, PeerInfoV>, p: int) -> bool {
    !roster.contains_key(p as u8) && (p >= w.players.len() || !w.players[p].joined)
}

pub open spec fn first_free(w: WorldV, roster: Map<u8, PeerInfoV>, p: int) -> Option<u8>
    decreases MAX_PLAYERS - p,
{
    if p < 0 || p >= MAX_PLAYERS {
        None
    } else if slot_free(w, roster, p) {
        Some(p as u8)
    } else {
        first_free(w, roster, p + 1)
    }
}

/// The pid of a (re)joining settler. Reclaim requires holding the settlement's key (keyless
/// settlements reclaim by name); pids online are never reclaimable. Otherwise the lowest free
/// slot.
pub open spec fn pid_for(w: WorldV, roster: Map<u8, PeerInfoV>, name: Seq<char>, key: Seq<u8>) -> Option<u8> {
    match first_reclaim(w, roster, name, key, 0) {
        Some(p) => Some(p),
        None => first_free(w, roster, 0),
    }
}

// ----------------------------------------------------------------------
// Beginnings
// ----------------------------------------------------------------------

pub open spec fn base(
    w: WorldV,
    kind: SessionKind,
    secret: Seq<u8>,
    key: Seq<u8>,
    name: Seq<char>,
    color: u8,
    seq: u64,
) -> State {
    State {
        world: w,
        kind,
        my_pid: 0,
        my_name: name,
        my_color: color,
        roster: Map::empty(),
        status: Seq::empty(),
        desync_at: None,
        accum: 0,
        secret,
        key,
        seq,
        peer_seq: Map::empty(),
        conn_key: Map::empty(),
        host_pid: HOST_PID,
        pid_of: Map::empty(),
        conn_of: Map::empty(),
        pending_dials: Seq::empty(),
        next_send: 0,
        pending: Map::empty(),
        history: Map::empty(),
        ghosts: Map::empty(),
        starts: Map::empty(),
        host_seen: 0,
        now: 0,
        last_heard: Map::empty(),
        freeze_at: None,
        lobby: Seq::empty(),
        local_q: Seq::empty(),
        bot_q: Map::empty(),
        my_hashes: Seq::empty(),
        host_gone: false,
        migration: None,
        need: NeedV::Nothing,
        outbox: Seq::empty(),
    }
}

/// Our own roster entry.
pub open spec fn me(pid: u8, name: Seq<char>, color: u8, key: Seq<u8>) -> PeerInfoV {
    PeerInfoV { pid, name, color, addr: Seq::empty(), key, bot: false }
}

/// Seat a bot, if there is room. Bots sign under the driving host's key.
pub open spec fn add_bot(s: State, name: Seq<char>) -> State {
    match pid_for(s.world, s.roster, name, no_key()) {
        Some(b) => State {
            roster: s.roster.insert(
                b,
                PeerInfoV { pid: b, name, color: b % 8, addr: Seq::empty(), key: s.key, bot: true },
            ),
            bot_q: s.bot_q.insert(b, Seq::empty()),
            ..s
        },
        None => s,
    }
}

pub open spec fn add_bots(s: State, names: Seq<Seq<char>>) -> State
    decreases names.len(),
{
    if names.len() == 0 {
        s
    } else {
        add_bot(add_bots(s, names.drop_last()), names.last())
    }
}

/// Open the timeline at `from` with an empty input window, and ask to settle.
pub open spec fn open_timeline(s: State, from: u32) -> State {
    State {
        pending: fill_window(s.pending, from, sat_add(from, DELAY), s.roster.dom(), false),
        next_send: sat_add(from, DELAY),
        local_q: s.local_q.push(CommandV::Join { name: s.my_name, color: s.my_color, key: s.key }),
        ..s
    }
}

pub open spec fn solo(
    w: WorldV,
    secret: Seq<u8>,
    key: Seq<u8>,
    name: Seq<char>,
    color: u8,
    bots: Seq<Seq<char>>,
    seq: u64,
) -> State {
    let s0 = base(w, SessionKind::Solo, secret, key, name, color, seq);
    let pid = match pid_for(w, s0.roster, name, key) {
        Some(p) => p,
        None => 0,
    };
    let s1 = State { my_pid: pid, roster: s0.roster.insert(pid, me(pid, name, color, key)), ..s0 };
    let s2 = add_bots(s1, bots);
    State { status: "offline world"@, ..open_timeline(s2, w.tick) }
}

pub open spec fn hosting(
    w: WorldV,
    secret: Seq<u8>,
    key: Seq<u8>,
    name: Seq<char>,
    color: u8,
    bots: Seq<Seq<char>>,
    seq: u64,
    status: Seq<char>,
) -> State {
    State { kind: SessionKind::Host, status, ..solo(w, secret, key, name, color, bots, seq) }
}

/// Which of the welcomed peers have to be dialled: not the host, not us, and not bots, which
/// have no address.
pub open spec fn to_dial(p: PeerInfoV, my_pid: u8) -> bool {
    p.pid != HOST_PID && p.pid != my_pid && p.addr.len() != 0
}

/// Enter one welcomed peer, with what dialling it gave.
pub open spec fn meet(s: State, p: PeerInfoV, dialled: Option<u64>) -> State {
    let s1 = State { roster: s.roster.insert(p.pid, p), ..s };
    if !to_dial(p, s.my_pid) {
        s1
    } else {
        match dialled {
            Some(conn) => send_to(
                bind(State { conn_key: s1.conn_key.insert(conn, p.key), ..s1 }, conn, p.pid),
                conn,
                MsgV::Dial { pid: s.my_pid },
            ),
            None => State { status: "could not reach peer "@ + dec(p.pid as nat) + " at "@ + p.addr, ..s1 },
        }
    }
}

pub open spec fn meet_all(s: State, peers: Seq<PeerInfoV>, dialled: Seq<Option<u64>>) -> State
    decreases peers.len(),
{
    if peers.len() == 0 {
        s
    } else {
        meet(
            meet_all(s, peers.drop_last(), dialled),
            peers.last(),
            if peers.len() <= dialled.len() {
                dialled[peers.len() - 1]
            } else {
                None
            },
        )
    }
}

/// A verified Welcome arrived, and its snapshot loaded.
pub open spec fn welcomed(
    w: WorldV,
    secret: Seq<u8>,
    key: Seq<u8>,
    name: Seq<char>,
    color: u8,
    seq: u64,
    now: u64,
    host_conn: u64,
    host_key: Seq<u8>,
    host_seq: u64,
    pid: u8,
    start_tick: u32,
    peers: Seq<PeerInfoV>,
    dialled: Seq<Option<u64>>,
) -> State {
    let s0 = base(w, SessionKind::Client, secret, key, name, color, seq);
    let s1 = State {
        now,
        my_pid: pid,
        roster: s0.roster.insert(pid, me(pid, name, color, key)),
        conn_key: s0.conn_key.insert(host_conn, host_key),
        peer_seq: s0.peer_seq.insert(host_key, host_seq),
        ..s0
    };
    let s2 = meet_all(bind(s1, host_conn, HOST_PID), peers, dialled);
    State {
        host_seen: sat_add(start_tick, DELAY),
        status: "joined as player "@ + dec(pid as nat),
        ..open_timeline(s2, start_tick)
    }
}

/// Does the first host entry of the list carry this key?
pub open spec fn lists_host(peers: Seq<PeerInfoV>, key: Seq<u8>) -> bool
    decreases peers.len(),
{
    if peers.len() == 0 {
        false
    } else if peers[0].pid == HOST_PID {
        peers[0].key == key
    } else {
        lists_host(peers.drop_first(), key)
    }
}

// ----------------------------------------------------------------------
// Shipping commands and running ticks
// ----------------------------------------------------------------------

/// An order of ours waits for the next tick we owe.
pub open spec fn queued(s: State, c: CommandV) -> State {
    State { local_q: s.local_q.push(c), ..s }
}

/// So does an order of a bot.
pub open spec fn queued_as(s: State, pid: u8, c: CommandV) -> State {
    State {
        bot_q: s.bot_q.insert(
            pid,
            if s.bot_q.contains_key(pid) {
                s.bot_q[pid].push(c)
            } else {
                seq![c]
            },
        ),
        ..s
    }
}

/// The bots that we drive. A client drives none.
pub open spec fn driven(s: State) -> Seq<u8> {
    if s.kind == SessionKind::Client {
        Seq::empty()
    } else {
        pids(s.bot_q.dom())
    }
}

/// Schedule a player's commands, and tell the mesh.
pub open spec fn give_orders(s: State, t: u32, pid: u8, cs: Seq<CommandV>) -> State {
    let s1 = State { pending: set_orders(s.pending, t, pid, cs), ..s };
    if s.kind == SessionKind::Solo {
        s1
    } else {
        broadcast(s1, MsgV::Cmds { tick: t, pid, cmds: cs }, None)
    }
}

pub open spec fn send_bot(s: State, t: u32, b: u8) -> State {
    give_orders(State { bot_q: s.bot_q.insert(b, Seq::empty()), ..s }, t, b, s.bot_q[b])
}

pub open spec fn send_bots(s: State, t: u32, bs: Seq<u8>) -> State
    decreases bs.len(),
{
    if bs.len() == 0 {
        s
    } else {
        send_bot(send_bots(s, t, bs.drop_last()), t, bs.last())
    }
}

/// Ship our commands, and the bots', for the next tick we owe.
pub open spec fn send_tick(s: State) -> State {
    let t = s.next_send;
    let s1 = give_orders(State { local_q: Seq::empty(), ..s }, t, s.my_pid, s.local_q);
    State { next_send: (t + 1) as u32, ..send_bots(s1, t, pids(s.bot_q.dom())) }
}

pub open spec fn send_ticks(s: State, n: nat) -> State
    decreases n,
{
    if n == 0 {
        s
    } else {
        send_ticks(send_tick(s), (n - 1) as nat)
    }
}

/// The first tick that may not be sent yet: beyond the delay, frozen, or (for a client) not
/// reached by the host.
pub open spec fn send_limit(s: State) -> u32 {
    let a = sat_add(s.world.tick, (DELAY + 1) as u32);
    let b = match s.freeze_at {
        Some(fa) => if fa < a {
            fa
        } else {
            a
        },
        None => a,
    };
    if s.kind == SessionKind::Client && s.host_seen < b {
        s.host_seen
    } else {
        b
    }
}

/// Ship commands for every tick we owe the mesh.
pub open spec fn ensure_sent(s: State) -> State {
    if s.next_send < send_limit(s) {
        send_ticks(s, (send_limit(s) - s.next_send) as nat)
    } else {
        s
    }
}

/// Does a member of the roster owe its commands for a tick? A newcomer does from its first tick
/// on.
pub open spec fn owes(s: State, p: u8, t: u32) -> bool {
    !(s.starts.contains_key(p) && t < s.starts[p])
}

/// Can tick `t` execute? Everyone in the roster, and every ghost whose final commands have not
/// run out yet, must be accounted for.
pub open spec fn ready(s: State, t: u32) -> bool {
    &&& s.pending.contains_key(t)
    &&& forall|p: u8| #[trigger] s.roster.contains_key(p) && owes(s, p, t) ==> s.pending[t].contains_key(p)
    &&& forall|p: u8| #[trigger] s.ghosts.contains_key(p) && t < s.ghosts[p] ==> s.pending[t].contains_key(p)
}

/// The part of a row that counts: what live players and unfinished ghosts ordered.
pub open spec fn kept(s: State, t: u32) -> Row {
    let row = row_at(s.pending, t);
    Map::new(
        |p: u8| row.contains_key(p) && (s.roster.contains_key(p) || (s.ghosts.contains_key(p) && t < s.ghosts[p])),
        |p: u8| row[p],
    )
}

/// A row as the simulation takes it: by player, then in the order given.
pub open spec fn flat(ps: Seq<u8>, row: Row) -> Seq<(u8, CommandV)>
    decreases ps.len(),
{
    if ps.len() == 0 {
        Seq::empty()
    } else {
        flat(ps.drop_last(), row) + Seq::new(row[ps.last()].len(), |i: int| (ps.last(), row[ps.last()][i]))
    }
}

/// Take the current tick's commands.
pub open spec fn begin_tick(s: State) -> State {
    State {
        pending: s.pending.remove(s.world.tick),
        history: s.history.insert(s.world.tick, kept(s, s.world.tick)),
        ..s
    }
}

/// The commands the current tick runs: the same set in the same order everywhere.
pub open spec fn tick_orders(s: State) -> Seq<(u8, CommandV)> {
    flat(pids(kept(s, s.world.tick).dom()), kept(s, s.world.tick))
}

pub open spec fn last_hashes(h: Seq<(u32, u64)>) -> Seq<(u32, u64)> {
    if h.len() > HASHES_KEPT {
        h.skip(h.len() - HASHES_KEPT)
    } else {
        h
    }
}

/// Let go of what the new tick makes obsolete.
pub open spec fn retire(s: State, w: WorldV) -> State {
    State {
        world: w,
        history: from_tick(s.history, sat_sub(w.tick, HISTORY_KEEP)),
        pending: from_tick(s.pending, w.tick),
        ghosts: Map::new(|p: u8| s.ghosts.contains_key(p) && w.tick < s.ghosts[p], |p: u8| s.ghosts[p]),
        ..s
    }
}

/// The simulation ran the tick; `hash` is the new world's checksum.
pub open spec fn end_tick(s: State, w: WorldV, hash: u64) -> State {
    let s1 = retire(s, w);
    if w.tick % HASH_EVERY == 0 {
        let s2 = State { my_hashes: last_hashes(s1.my_hashes.push((w.tick, hash))), ..s1 };
        if s.kind == SessionKind::Solo {
            s2
        } else {
            broadcast(s2, MsgV::HashChk { tick: w.tick, hash }, None)
        }
    } else {
        s1
    }
}

pub open spec fn finish_tick(s: State, w: WorldV, hash: u64) -> State {
    let s1 = ensure_sent(end_tick(s, w, hash));
    State { accum: (s1.accum - TICK_NS) as u64, ..s1 }
}

/// Bank the elapsed time, unless the world stands still.
pub open spec fn pace(s: State, dt: u64) -> State {
    let s1 = ensure_sent(s);
    if s1.host_gone || s1.desync_at is Some {
        State { accum: 0, ..s1 }
    } else {
        State {
            accum: if s1.accum + dt > u64::MAX {
                u64::MAX
            } else {
                (s1.accum + dt) as u64
            },
            ..s1
        }
    }
}

/// Is another tick due in this update, of which `stepped` ticks have run?
pub open spec fn due(s: State, stepped: u32) -> bool {
    s.accum >= TICK_NS && stepped < MAX_CATCHUP && ready(s, s.world.tick)
}

/// When no tick is due: waiting on the network must not bank unbounded time debt, and neither
/// must a machine that cannot keep up.
pub open spec fn settle(s: State, stepped: u32) -> State {
    if stepped >= MAX_CATCHUP {
        State { accum: 0, ..s }
    } else if s.accum >= TICK_NS {
        State { accum: TICK_NS, ..s }
    } else {
        s
    }
}

// ----------------------------------------------------------------------
// Events
// ----------------------------------------------------------------------

/// Does the verification gauntlet let this envelope through on this link?
pub open spec fn admits(s: State, conn: u64, e: EnvelopeV) -> bool {
    &&& envelope_valid(e)
    &&& s.peer_seq.contains_key(e.sender) ==> e.seq > s.peer_seq[e.sender]
    &&& s.conn_key.contains_key(conn) ==> s.conn_key[conn] == e.sender
}

/// Note the envelope: its link is locked to its sender, its number is used up.
pub open spec fn note(s: State, conn: u64, e: EnvelopeV) -> State {
    State { conn_key: s.conn_key.insert(conn, e.sender), peer_seq: s.peer_seq.insert(e.sender, e.seq), ..s }
}

pub open spec fn on_data(s: State, conn: u64, bytes: Seq<u8>) -> State {
    match envelope_of(bytes) {
        None => s,
        Some(e) => if !admits(s, conn, e) {
            s
        } else {
            let s1 = note(s, conn, e);
            match msg_of(e.payload) {
                None => s1,
                Some(m) => if s.pid_of.contains_key(conn) {
                    on_msg(
                        State { last_heard: s1.last_heard.insert(s.pid_of[conn], s.now), ..s1 },
                        s.pid_of[conn],
                        e.sender,
                        m,
                    )
                } else {
                    on_first(s1, conn, e.sender, m)
                },
            }
        },
    }
}

pub open spec fn on_closed(s: State, conn: u64) -> State {
    let s1 = State {
        conn_key: s.conn_key.remove(conn),
        pending_dials: s.pending_dials.filter(|c: ClaimV| c.conn != conn),
        ..s
    };
    if s.pid_of.contains_key(conn) {
        let pid = s.pid_of[conn];
        on_down(State { pid_of: s1.pid_of.remove(conn), conn_of: s1.conn_of.remove(pid), ..s1 }, pid)
    } else {
        s1
    }
}

/// What the transport reports.
pub open spec fn on_event(s: State, ev: TransportEv) -> State {
    match ev {
        TransportEv::Connected { conn } => s,
        TransportEv::Data { conn, bytes } => on_data(s, conn, bytes@),
        TransportEv::Closed { conn } => on_closed(s, conn),
    }
}

/// Is the key already in the world?
pub open spec fn key_online(s: State, key: Seq<u8>) -> bool {
    exists|p: u8| #[trigger] s.roster.contains_key(p) && s.roster[p].key == key
}

/// A joiner knocks: let them wait, and freeze the world if it is not freezing already.
pub open spec fn knock(s: State, k: KnockV) -> State {
    let s1 = State { lobby: s.lobby.push(k), ..s };
    if s.freeze_at is None {
        let fa = sat_add(s.world.tick, (3 * DELAY + 3) as u32);
        State {
            status: "a settler is arriving — world pausing…"@,
            ..broadcast(State { freeze_at: Some(fa), ..s1 }, MsgV::Freeze { at: fa }, None)
        }
    } else {
        s1
    }
}

/// First frame on an anonymous link: a joiner's Hello or a mesh peer's Dial.
pub open spec fn on_first(s: State, conn: u64, sender: Seq<u8>, m: MsgV) -> State {
    match m {
        MsgV::Hello { name, color, listen_port } => if s.kind != SessionKind::Host {
            send_to(s, conn, MsgV::Deny { reason: "not the host"@ })
        } else if key_online(s, sender) {
            send_to(s, conn, MsgV::Deny { reason: "this key is already in the world"@ })
        } else {
            knock(s, KnockV { conn, key: sender, name, color, listen_port })
        },
        MsgV::Dial { pid } => claim(s, ClaimV { conn, key: sender, pid }),
        _ => s,
    }
}

/// A meshing peer claims a pid: honored only if the roster says that the pid belongs to their
/// key; parked if the roster does not know the pid yet.
pub open spec fn claim(s: State, c: ClaimV) -> State {
    if s.roster.contains_key(c.pid) {
        if s.roster[c.pid].key == c.key {
            bind(s, c.conn, c.pid)
        } else {
            close(s, c.conn)
        }
    } else {
        State { pending_dials: s.pending_dials.push(c), ..s }
    }
}

pub open spec fn claim_all(s: State, cs: Seq<ClaimV>) -> State
    decreases cs.len(),
{
    if cs.len() == 0 {
        s
    } else {
        claim(claim_all(s, cs.drop_last()), cs.last())
    }
}

/// Our own checksum for a tick, the earliest kept.
pub open spec fn my_hash(h: Seq<(u32, u64)>, t: u32) -> Option<u64>
    decreases h.len(),
{
    if h.len() == 0 {
        None
    } else if h[0].0 == t {
        Some(h[0].1)
    } else {
        my_hash(h.drop_first(), t)
    }
}

pub open spec fn on_cmds(s: State, from_pid: u8, t: u32, pid: u8, cs: Seq<CommandV>) -> State {
    if t < s.world.tick {
        s
    } else {
        State {
            pending: set_orders(s.pending, t, pid, cs),
            host_seen: if from_pid == s.host_pid && s.kind == SessionKind::Client {
                max32(s.host_seen, sat_add(t, 1))
            } else {
                s.host_seen
            },
            ..s
        }
    }
}

pub open spec fn on_hash(s: State, from_pid: u8, t: u32, hash: u64) -> State {
    match my_hash(s.my_hashes, t) {
        Some(mine) => if mine != hash && s.desync_at is None {
            State {
                desync_at: Some(t),
                status: "DESYNC at tick "@ + dec(t as nat) + " vs player "@ + dec(from_pid as nat) + " — world halted"@,
                ..s
            }
        } else {
            s
        },
        None => s,
    }
}

pub open spec fn backfilled(s: State, pid: u8, rows: Seq<(u32, Seq<CommandV>)>) -> State
    decreases rows.len(),
{
    if rows.len() == 0 {
        s
    } else {
        let s1 = backfilled(s, pid, rows.drop_last());
        let row = rows.last();
        if row.0 >= s.world.tick {
            State { pending: set_orders(s1.pending, row.0, pid, row.1), ..s1 }
        } else {
            s1
        }
    }
}

/// Is a canonical resume a legitimate election outcome? The sender must be the pid we would
/// elect ourselves, signed by that pid's key, retiring the host we follow.
pub open spec fn resume_legit(s: State, from_pid: u8, sender: Seq<u8>, old: u8) -> bool {
    old == s.host_pid && elect(s.roster, old) == Some(from_pid) && owns(s, from_pid, sender)
}

pub open spec fn on_msg(s: State, from_pid: u8, sender: Seq<u8>, m: MsgV) -> State {
    match m {
        MsgV::Cmds { tick, pid, cmds } => if owns(s, pid, sender) {
            on_cmds(s, from_pid, tick, pid, cmds)
        } else {
            s
        },
        MsgV::HashChk { tick, hash } => if owns(s, from_pid, sender) {
            on_hash(s, from_pid, tick, hash)
        } else {
            s
        },
        MsgV::Freeze { at } => if sender == host_key(s) {
            State { freeze_at: Some(at), status: "world pausing — someone is joining…"@, ..s }
        } else {
            s
        },
        MsgV::PeerJoined { info, start_tick } => if sender == host_key(s) {
            apply_join(s, info, start_tick)
        } else {
            s
        },
        MsgV::Left { pid, from, backfill } => if sender == host_key(s) {
            depart(backfilled(s, pid, backfill), pid, from)
        } else {
            s
        },
        MsgV::MigrateResume { old, resume_tick, bots, snapshot } => if resume_legit(s, from_pid, sender, old) {
            State { migration: None, need: NeedV::Load { old, new_host: from_pid, bots, snapshot }, ..s }
        } else {
            s
        },
        MsgV::Deny { reason } => State { status: "denied: "@ + reason, ..s },
        _ => s,
    }
}

/// A new settler is in: everyone runs this with identical arguments. The frozen window is
/// empty by definition for every pid.
pub open spec fn apply_join(s: State, info: PeerInfoV, start_tick: u32) -> State {
    let end = sat_add(start_tick, DELAY);
    let s1 = claim_all(
        State { roster: s.roster.insert(info.pid, info), pending_dials: Seq::empty(), ..s },
        s.pending_dials,
    );
    State {
        pending: fill_window(s1.pending, start_tick, end, s1.roster.dom(), true),
        next_send: max32(s1.next_send, end),
        host_seen: max32(s1.host_seen, end),
        starts: s1.starts.insert(info.pid, start_tick),
        freeze_at: None,
        status: info.name + " joined the world"@,
        ..s1
    }
}

/// A player leaves the roster; commands of theirs before the tick `from` still execute.
pub open spec fn depart(s: State, pid: u8, from: u32) -> State {
    if s.roster.contains_key(pid) {
        let s1 = State {
            roster: s.roster.remove(pid),
            ghosts: if s.world.tick < from {
                s.ghosts.insert(pid, from)
            } else {
                s.ghosts
            },
            ..s
        };
        State { status: "player "@ + dec(pid as nat) + " left — their base stands"@, ..cut(s1, pid) }
    } else {
        s
    }
}

/// The first tick from `t` on without commands of `pid`.
pub open spec fn first_gap(pending: Map<u32, Row>, pid: u8, t: u32) -> u32
    decreases u32::MAX - t,
{
    if t < u32::MAX && row_at(pending, t).contains_key(pid) {
        first_gap(pending, pid, (t + 1) as u32)
    } else {
        t
    }
}

/// What the record holds of a player's commands for a tick.
pub open spec fn recorded(s: State, pid: u8, t: u32) -> Option<Seq<CommandV>> {
    if row_at(s.pending, t).contains_key(pid) {
        Some(row_at(s.pending, t)[pid])
    } else if row_at(s.history, t).contains_key(pid) {
        Some(row_at(s.history, t)[pid])
    } else {
        None
    }
}

/// The record of a player's commands for the ticks from `lo` up to `hi`.
pub open spec fn record(s: State, pid: u8, lo: u32, hi: u32) -> Seq<(u32, Seq<CommandV>)>
    decreases hi,
{
    if hi <= lo {
        Seq::empty()
    } else {
        let head = record(s, pid, lo, (hi - 1) as u32);
        match recorded(s, pid, (hi - 1) as u32) {
            Some(cs) => head.push(((hi - 1) as u32, cs)),
            None => head,
        }
    }
}

/// The host's verdict on a player that is gone: the host's record is canon.
pub open spec fn verdict(s: State, pid: u8) -> State {
    let from = first_gap(s.pending, pid, s.world.tick);
    let backfill = record(s, pid, sat_sub(s.world.tick, BACKFILL), from);
    depart(broadcast(s, MsgV::Left { pid, from, backfill }, None), pid, from)
}

pub open spec fn on_down(s: State, pid: u8) -> State {
    match s.kind {
        SessionKind::Host => if s.roster.contains_key(pid) {
            verdict(s, pid)
        } else {
            s
        },
        SessionKind::Client => if pid == s.host_pid {
            begin_migration(s)
        } else if s.migration == Some(pid) {
            begin_migration(State { migration: None, ..s })
        } else {
            s
        },
        SessionKind::Solo => s,
    }
}

// ----------------------------------------------------------------------
// Host migration
// ----------------------------------------------------------------------

/// May the player take over from `old`?
pub open spec fn electable(roster: Map<u8, PeerInfoV>, old: u8, p: u8) -> bool {
    roster.contains_key(p) && p != old && !roster[p].bot
}

pub open spec fn elect_from(roster: Map<u8, PeerInfoV>, old: u8, p: int) -> Option<u8>
    decreases 256 - p,
{
    if p < 0 || p >= 256 {
        None
    } else if electable(roster, old, p as u8) {
        Some(p as u8)
    } else {
        elect_from(roster, old, p + 1)
    }
}

/// The lowest surviving pid that is no bot. Every survivor computes the identical answer from
/// the identical roster.
pub open spec fn elect(roster: Map<u8, PeerInfoV>, old: u8) -> Option<u8> {
    elect_from(roster, old, 0)
}

/// The host's link is gone: elect a successor; if it is us, our world is the new canon.
pub open spec fn begin_migration(s: State) -> State {
    match elect(s.roster, s.host_pid) {
        None => State {
            host_gone: true,
            status: "host left and no peers remain — world paused (your save persists)"@,
            ..s
        },
        Some(new_host) => {
            let s1 = State { migration: Some(new_host), ..unlink(s, s.host_pid) };
            if new_host == s.my_pid {
                State { status: "host vanished — taking over the world…"@, need: NeedV::Snapshot, ..s1 }
            } else {
                State { status: "host vanished — player "@ + dec(new_host as nat) + " is taking over…"@, ..s1 }
            }
        },
    }
}

pub open spec fn bots_among(ps: Seq<u8>, roster: Map<u8, PeerInfoV>) -> Seq<u8>
    decreases ps.len(),
{
    if ps.len() == 0 {
        Seq::empty()
    } else {
        let head = bots_among(ps.drop_last(), roster);
        if roster[ps.last()].bot {
            head.push(ps.last())
        } else {
            head
        }
    }
}

/// Our world is saved: hand it to every survivor, then adopt it ourselves.
pub open spec fn offer_snapshot(s: State, snapshot: Seq<u8>) -> State {
    let bots = bots_among(pids(s.roster.dom()), s.roster);
    State {
        need: NeedV::Load { old: s.host_pid, new_host: s.my_pid, bots, snapshot },
        ..broadcast(
            s,
            MsgV::MigrateResume { old: s.host_pid, resume_tick: s.world.tick, bots, snapshot },
            None,
        )
    }
}

pub open spec fn rekey(roster: Map<u8, PeerInfoV>, bots: Seq<u8>, key: Seq<u8>) -> Map<u8, PeerInfoV>
    decreases bots.len(),
{
    if bots.len() == 0 {
        roster
    } else {
        let r = rekey(roster, bots.drop_last(), key);
        if r.contains_key(bots.last()) {
            r.insert(bots.last(), PeerInfoV { key, ..r[bots.last()] })
        } else {
            r
        }
    }
}

pub open spec fn add_queues(q: Map<u8, Seq<CommandV>>, bots: Seq<u8>) -> Map<u8, Seq<CommandV>>
    decreases bots.len(),
{
    if bots.len() == 0 {
        q
    } else {
        let r = add_queues(q, bots.drop_last());
        if r.contains_key(bots.last()) {
            r
        } else {
            r.insert(bots.last(), Seq::empty())
        }
    }
}

/// Adopt the canonical world after a migration. Every survivor runs this with the identical
/// snapshot, so they converge no matter what tick each was frozen at.
pub open spec fn adopt(s: State, old: u8, new_host: u8, bots: Seq<u8>, w: WorldV) -> State {
    let s1 = unlink(State { roster: s.roster.remove(old), ..s }, old);
    let roster = rekey(s1.roster, bots, key_of_pid(s.roster, new_host));
    let end = sat_add(w.tick, DELAY);
    let s2 = State {
        world: w,
        roster,
        host_pid: new_host,
        pending: fill_window(Map::empty(), w.tick, end, roster.dom(), true),
        history: Map::empty(),
        ghosts: Map::empty(),
        starts: Map::empty(),
        local_q: Seq::empty(),
        next_send: end,
        host_seen: end,
        host_gone: false,
        migration: None,
        ..s1
    };
    if new_host == s.my_pid {
        State {
            kind: SessionKind::Host,
            bot_q: add_queues(s.bot_q, bots),
            status: "you now host the world — resumed at tick "@ + dec(w.tick as nat),
            ..s2
        }
    } else {
        State {
            status: "player "@ + dec(new_host as nat) + " now hosts — world resumed at tick "@ + dec(w.tick as nat),
            ..s2
        }
    }
}

/// The snapshot was loaded, or turned out corrupt.
pub open spec fn resume(s: State, loaded: Option<WorldV>) -> State {
    match s.need {
        NeedV::Load { old, new_host, bots, snapshot } => {
            let s1 = State { need: NeedV::Nothing, ..s };
            match loaded {
                Some(w) => adopt(s1, old, new_host, bots, w),
                None => State {
                    status: "migration snapshot was corrupt — world halted"@,
                    desync_at: Some(s.world.tick),
                    ..s1
                },
            }
        },
        _ => s,
    }
}

// ----------------------------------------------------------------------
// Admission, watchdogs, leaving
// ----------------------------------------------------------------------

/// Has the world reached the freeze point?
pub open spec fn frozen(s: State) -> bool {
    s.freeze_at matches Some(fa) && s.world.tick >= fa
}

pub open spec fn peers_in(ps: Seq<u8>, roster: Map<u8, PeerInfoV>) -> Seq<PeerInfoV> {
    Seq::new(ps.len(), |i: int| roster[ps[i]])
}

pub open spec fn guest(k: KnockV, pid: u8, ip: Seq<char>) -> PeerInfoV {
    PeerInfoV {
        pid,
        name: k.name,
        color: k.color,
        addr: ip + ":"@ + dec(k.listen_port as nat),
        key: k.key,
        bot: false,
    }
}

pub open spec fn let_in(s: State, at: u32, snapshot: Seq<u8>, k: KnockV, ip: Seq<char>) -> State {
    match pid_for(s.world, s.roster, k.name, k.key) {
        None => send_to(s, k.conn, MsgV::Deny { reason: "world is full"@ }),
        Some(pid) => {
            let info = guest(k, pid, ip);
            let peers = peers_in(pids(s.roster.dom()), s.roster);
            let s1 = send_to(s, k.conn, MsgV::Welcome { pid, start_tick: at, peers, snapshot });
            let s2 = bind(s1, k.conn, pid);
            let s3 = broadcast(s2, MsgV::PeerJoined { info, start_tick: at }, Some(pid));
            apply_join(s3, info, at)
        },
    }
}

pub open spec fn let_all_in(s: State, at: u32, snapshot: Seq<u8>, ks: Seq<KnockV>, ips: Seq<Seq<char>>) -> State
    decreases ks.len(),
{
    if ks.len() == 0 {
        s
    } else {
        let_in(
            let_all_in(s, at, snapshot, ks.drop_last(), ips),
            at,
            snapshot,
            ks.last(),
            ips[ks.len() - 1],
        )
    }
}

/// Host: at the freeze point, let the lobby in.
pub open spec fn try_admit(s: State, snapshot: Seq<u8>, ips: Seq<Seq<char>>) -> State {
    if frozen(s) {
        let_all_in(State { lobby: Seq::empty(), ..s }, s.freeze_at->0, snapshot, s.lobby, ips)
    } else {
        s
    }
}

/// Has the player been silent for too long?
pub open spec fn silent(s: State, pid: u8) -> bool {
    s.last_heard.contains_key(pid) && s.now - s.last_heard[pid] > PEER_TIMEOUT_NS
}

/// Client: a host that has gone silent must also trigger migration.
pub open spec fn host_watchdog(s: State) -> State {
    if s.migration is None && silent(s, s.host_pid) {
        begin_migration(State { status: "host went silent — migrating…"@, ..s })
    } else {
        s
    }
}

pub open spec fn dead_among(s: State, ps: Seq<u8>) -> Seq<u8>
    decreases ps.len(),
{
    if ps.len() == 0 {
        Seq::empty()
    } else {
        let head = dead_among(s, ps.drop_last());
        let p = ps.last();
        if p != s.my_pid && !s.bot_q.contains_key(p) && silent(s, p) {
            head.push(p)
        } else {
            head
        }
    }
}

pub open spec fn bury(s: State, pid: u8) -> State {
    on_down(cut(State { status: "player "@ + dec(pid as nat) + " timed out"@, ..s }, pid), pid)
}

pub open spec fn bury_all(s: State, ps: Seq<u8>) -> State
    decreases ps.len(),
{
    if ps.len() == 0 {
        s
    } else {
        bury(bury_all(s, ps.drop_last()), ps.last())
    }
}

/// Host: liveness watchdog over the wall clock.
pub open spec fn watchdog(s: State) -> State {
    bury_all(s, dead_among(s, pids(s.roster.dom())))
}

/// The upkeep of one update, after its events. A migration in flight freezes the world.
pub open spec fn tend(s: State) -> State {
    if s.migration is Some {
        State { accum: 0, ..s }
    } else if s.kind == SessionKind::Host {
        watchdog(s)
    } else if s.kind == SessionKind::Client {
        host_watchdog(s)
    } else {
        s
    }
}

pub open spec fn close_all(outbox: Seq<ActionV>, conns: Seq<u64>) -> Seq<ActionV> {
    outbox + Seq::new(conns.len(), |i: int| ActionV::Close { conn: conns[i] })
}

/// Graceful exit: close every link so peers see us go immediately.
pub open spec fn leave(s: State) -> State {
    State {
        outbox: close_all(s.outbox, links(pids(s.conn_of.dom()), s.conn_of, None)),
        conn_of: Map::empty(),
        pid_of: Map::empty(),
        conn_key: Map::empty(),
        ..s
    }
}

/// Stay in the roster as the pacing host, but found no settlement.
pub open spec fn skip_settle(s: State) -> State {
    State { local_q: s.local_q.filter(|c: CommandV| !(c is Join)), ..s }
}

} // verus!
