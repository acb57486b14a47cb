//! What holds of every session, whatever happens to it.

use crate::command::CommandV;
use crate::protocol::{
    envelope_of, envelope_reads_back, envelope_valid, msg_fits, msg_of, msg_reads_back, put_envelope, put_msg, EnvelopeV, MsgV,
    PeerInfoV,
};
use crate::state::{
    admits, adopt, apply_join, backfilled, begin_migration, begin_tick, bind, broadcast, bury_all, claim, claim_all, cut,
    dead_among, depart, due, elect, elect_from, electable, emit, end_tick, ensure_sent, finish_tick, first_free, first_gap,
    first_reclaim, flat, frozen, give_orders, guest, host_key, kept, key_of_pid, leave, let_all_in, let_in, links, max32,
    my_hash, note, offer_snapshot, on_closed, on_data, on_down, on_first, on_hash, on_msg, owes, owns, pace, peers_in, pid_for,
    ready, reclaims, record, rekey, resume, row_at, sat_add, sat_sub, send_bot, send_bots, send_limit, send_tick, send_ticks,
    send_to, settle, slot_free, tend, tick_orders, try_admit, verdict, ActionV, ClaimV, KnockV, Row, SessionKind, State,
    WorldV, BACKFILL, DELAY, MAX_CATCHUP, MAX_PLAYERS, TICK_NS,
};
use crate::tables::{pids, pids_enumerate};
use vstd::prelude::*;

verus! {

// ----------------------------------------------------------------------
// Numbers only grow
// ----------------------------------------------------------------------

/// The number of an outgoing message.
pub open spec fn number(a: ActionV) -> Option<u64> {
    match a {
        ActionV::Send { to, seq, msg } => Some(seq),
        ActionV::Close { conn } => None,
    }
}

/// `b` comes after `a`: same identity, same seat; what was to go out still goes out, in the
/// same order, and every message written down since has a number of its own, above all the
/// numbers before it (until the numbers run out).
pub open spec fn follows(a: State, b: State) -> bool {
    &&& b.secret == a.secret
    &&& b.key == a.key
    &&& b.my_pid == a.my_pid
    &&& a.seq <= b.seq
    &&& a.outbox.len() <= b.outbox.len()
    &&& forall|i: int| 0 <= i < a.outbox.len() ==> #[trigger] b.outbox[i] == a.outbox[i]
    &&& forall|i: int|
        a.outbox.len() <= i < b.outbox.len() ==> (number(#[trigger] b.outbox[i]) matches Some(n) ==> a.seq <= n && (n
            < b.seq || b.seq == u64::MAX))
    &&& forall|i: int, j: int|
        a.outbox.len() <= i < j < b.outbox.len() ==> (number(#[trigger] b.outbox[i]) matches Some(n) ==> (number(
            #[trigger] b.outbox[j],
        ) matches Some(m) ==> n < m || m == u64::MAX))
}

/// As `follows`, and the highest numbers seen of others are as they were, and so is the world.
pub open spec fn steps(a: State, b: State) -> bool {
    follows(a, b) && b.peer_seq == a.peer_seq && b.world == a.world
}

proof fn steps_trans(a: State, b: State, c: State)
    requires
        follows(a, b),
        follows(b, c),
    ensures
        follows(a, c),
        steps(a, b) && steps(b, c) ==> steps(a, c),
{
    assert forall|i: int| 0 <= i < a.outbox.len() implies #[trigger] c.outbox[i] == a.outbox[i] by {
        assert(b.outbox[i] == a.outbox[i]);
    }
    assert forall|i: int| a.outbox.len() <= i < c.outbox.len() implies (number(#[trigger] c.outbox[i]) matches Some(
        n,
    ) ==> a.seq <= n && (n < c.seq || c.seq == u64::MAX)) by {
        if i < b.outbox.len() {
            assert(c.outbox[i] == b.outbox[i]);
        }
    }
    assert forall|i: int, j: int| a.outbox.len() <= i < j < c.outbox.len() implies (number(
        #[trigger] c.outbox[i],
    ) matches Some(n) ==> (number(#[trigger] c.outbox[j]) matches Some(m) ==> n < m || m == u64::MAX)) by {
        if j < b.outbox.len() {
            assert(c.outbox[i] == b.outbox[i] && c.outbox[j] == b.outbox[j]);
        } else if i < b.outbox.len() {
            assert(c.outbox[i] == b.outbox[i]);
        }
    }
}

proof fn emit_steps(s: State, to: Seq<u64>, msg: MsgV)
    ensures
        steps(s, emit(s, to, msg)),
{
}
proof fn cut_steps(s: State, pid: u8)
    ensures
        steps(s, cut(s, pid)),
{
}

proof fn give_steps(s: State, t: u32, pid: u8, cs: Seq<CommandV>)
    ensures
        steps(s, give_orders(s, t, pid, cs)),
{
}

proof fn bots_steps(s: State, t: u32, bs: Seq<u8>)
    ensures
        steps(s, send_bots(s, t, bs)),
    decreases bs.len(),
{
    if bs.len() > 0 {
        let mid = send_bots(s, t, bs.drop_last());
        bots_steps(s, t, bs.drop_last());
        give_steps(State { bot_q: mid.bot_q.insert(bs.last(), Seq::empty()), ..mid }, t, bs.last(), mid.bot_q[bs.last()]);
        steps_trans(s, mid, send_bot(mid, t, bs.last()));
    }
}

proof fn ticks_steps(s: State, n: nat)
    ensures
        steps(s, send_ticks(s, n)),
    decreases n,
{
    if n > 0 {
        let t = s.next_send;
        let s1 = give_orders(State { local_q: Seq::empty(), ..s }, t, s.my_pid, s.local_q);
        give_steps(State { local_q: Seq::empty(), ..s }, t, s.my_pid, s.local_q);
        bots_steps(s1, t, pids(s.bot_q.dom()));
        steps_trans(s, s1, send_bots(s1, t, pids(s.bot_q.dom())));
        let s2 = send_tick(s);
        assert(steps(s, s2));
        ticks_steps(s2, (n - 1) as nat);
        steps_trans(s, s2, send_ticks(s2, (n - 1) as nat));
    }
}

/// Shipping what is owed only adds messages with fresh numbers.
pub proof fn shipping_follows(s: State)
    ensures
        steps(s, ensure_sent(s)),
{
    if s.next_send < send_limit(s) {
        ticks_steps(s, (send_limit(s) - s.next_send) as nat);
    }
}

/// So does running a tick.
pub proof fn ticking_follows(s: State, w: WorldV, hash: u64)
    ensures
        steps(s, begin_tick(s)),
        follows(s, finish_tick(s, w, hash)),
        finish_tick(s, w, hash).peer_seq == s.peer_seq,
        finish_tick(s, w, hash).world == w,
{
    let s1 = end_tick(s, w, hash);
    assert(follows(s, s1));
    shipping_follows(s1);
    steps_trans(s, s1, ensure_sent(s1));
}

proof fn claim_steps(s: State, c: ClaimV)
    ensures
        steps(s, claim(s, c)),
{
}

proof fn claims_steps(s: State, cs: Seq<ClaimV>)
    ensures
        steps(s, claim_all(s, cs)),
        claim_all(s, cs).roster == s.roster,
        claim_all(s, cs).pending == s.pending,
        claim_all(s, cs).next_send == s.next_send,
        claim_all(s, cs).host_seen == s.host_seen,
        claim_all(s, cs).world == s.world,
        claim_all(s, cs).kind == s.kind,
        claim_all(s, cs).ghosts == s.ghosts,
        claim_all(s, cs).starts == s.starts,
        claim_all(s, cs).host_pid == s.host_pid,
    decreases cs.len(),
{
    if cs.len() > 0 {
        let mid = claim_all(s, cs.drop_last());
        claims_steps(s, cs.drop_last());
        claim_steps(mid, cs.last());
        steps_trans(s, mid, claim(mid, cs.last()));
    }
}

proof fn join_steps(s: State, info: PeerInfoV, start_tick: u32)
    ensures
        steps(s, apply_join(s, info, start_tick)),
{
    let s1 = State { roster: s.roster.insert(info.pid, info), pending_dials: Seq::empty(), ..s };
    claims_steps(s1, s.pending_dials);
    steps_trans(s, s1, claim_all(s1, s.pending_dials));
}

proof fn depart_steps(s: State, pid: u8, from: u32)
    ensures
        steps(s, depart(s, pid, from)),
{
}

proof fn backfilled_steps(s: State, pid: u8, rows: Seq<(u32, Seq<CommandV>)>)
    ensures
        steps(s, backfilled(s, pid, rows)),
    decreases rows.len(),
{
    if rows.len() > 0 {
        backfilled_steps(s, pid, rows.drop_last());
    }
}

proof fn migration_steps(s: State)
    ensures
        steps(s, begin_migration(s)),
{
}

proof fn down_steps(s: State, pid: u8)
    ensures
        steps(s, on_down(s, pid)),
{
    match s.kind {
        SessionKind::Host => {
            if s.roster.contains_key(pid) {
                let from = first_gap(s.pending, pid, s.world.tick);
                let backfill = record(s, pid, sat_sub(s.world.tick, BACKFILL), from);
                let s1 = broadcast(s, MsgV::Left { pid, from, backfill }, None);
                emit_steps(s, links(pids(s.conn_of.dom()), s.conn_of, None), MsgV::Left { pid, from, backfill });
                depart_steps(s1, pid, from);
                steps_trans(s, s1, depart(s1, pid, from));
            }
        },
        SessionKind::Client => {
            migration_steps(s);
            migration_steps(State { migration: None, ..s });
        },
        SessionKind::Solo => {},
    }
}

proof fn msg_steps(s: State, from_pid: u8, sender: Seq<u8>, m: MsgV)
    ensures
        steps(s, on_msg(s, from_pid, sender, m)),
{
    match m {
        MsgV::PeerJoined { info, start_tick } => {
            join_steps(s, info, start_tick);
        },
        MsgV::Left { pid, from, backfill } => {
            backfilled_steps(s, pid, backfill);
            let s1 = backfilled(s, pid, backfill);
            depart_steps(s1, pid, from);
            steps_trans(s, s1, depart(s1, pid, from));
        },
        _ => {},
    }
}

proof fn first_steps(s: State, conn: u64, sender: Seq<u8>, m: MsgV)
    ensures
        steps(s, on_first(s, conn, sender, m)),
{
}

/// Whatever arrives only adds messages with fresh numbers, and the highest number seen of a
/// sender only grows.
pub proof fn arrival_follows(s: State, conn: u64, bytes: Seq<u8>)
    ensures
        follows(s, on_data(s, conn, bytes)),
        on_data(s, conn, bytes).peer_seq == (match envelope_of(bytes) {
            Some(e) => if admits(s, conn, e) {
                s.peer_seq.insert(e.sender, e.seq)
            } else {
                s.peer_seq
            },
            None => s.peer_seq,
        }),
        on_data(s, conn, bytes).world == s.world,
{
    match envelope_of(bytes) {
        Some(e) => {
            if admits(s, conn, e) {
                let s1 = note(s, conn, e);
                assert(follows(s, s1));
                match msg_of(e.payload) {
                    Some(m) => {
                        if s.pid_of.contains_key(conn) {
                            let s2 = State { last_heard: s1.last_heard.insert(s.pid_of[conn], s.now), ..s1 };
                            msg_steps(s2, s.pid_of[conn], e.sender, m);
                            steps_trans(s, s2, on_msg(s2, s.pid_of[conn], e.sender, m));
                        } else {
                            first_steps(s1, conn, e.sender, m);
                            steps_trans(s, s1, on_first(s1, conn, e.sender, m));
                        }
                    },
                    None => {},
                }
            }
        },
        None => {},
    }
}

/// So does a link that closes.
pub proof fn closing_follows(s: State, conn: u64)
    ensures
        steps(s, on_closed(s, conn)),
{
    let s1 = State {
        conn_key: s.conn_key.remove(conn),
        pending_dials: s.pending_dials.filter(|c: ClaimV| c.conn != conn),
        ..s
    };
    if s.pid_of.contains_key(conn) {
        let pid = s.pid_of[conn];
        let s2 = State { pid_of: s1.pid_of.remove(conn), conn_of: s1.conn_of.remove(pid), ..s1 };
        down_steps(s2, pid);
        steps_trans(s, s2, on_down(s2, pid));
    }
}

proof fn let_in_steps(s: State, at: u32, snapshot: Seq<u8>, k: KnockV, ip: Seq<char>)
    ensures
        steps(s, let_in(s, at, snapshot, k, ip)),
{
    match pid_for(s.world, s.roster, k.name, k.key) {
        None => {},
        Some(pid) => {
            let info = guest(k, pid, ip);
            let peers = peers_in(pids(s.roster.dom()), s.roster);
            let s1 = send_to(s, k.conn, MsgV::Welcome { pid, start_tick: at, peers, snapshot });
            let s2 = bind(s1, k.conn, pid);
            let s3 = broadcast(s2, MsgV::PeerJoined { info, start_tick: at }, Some(pid));
            assert(steps(s, s1));
            assert(steps(s1, s2));
            assert(steps(s2, s3));
            steps_trans(s, s1, s2);
            steps_trans(s, s2, s3);
            join_steps(s3, info, at);
            steps_trans(s, s3, apply_join(s3, info, at));
        },
    }
}

proof fn lobby_steps(s: State, at: u32, snapshot: Seq<u8>, ks: Seq<KnockV>, ips: Seq<Seq<char>>)
    ensures
        steps(s, let_all_in(s, at, snapshot, ks, ips)),
    decreases ks.len(),
{
    if ks.len() > 0 {
        let mid = let_all_in(s, at, snapshot, ks.drop_last(), ips);
        lobby_steps(s, at, snapshot, ks.drop_last(), ips);
        let_in_steps(mid, at, snapshot, ks.last(), ips[ks.len() - 1]);
        steps_trans(s, mid, let_in(mid, at, snapshot, ks.last(), ips[ks.len() - 1]));
    }
}

/// So does letting the lobby in.
pub proof fn admission_follows(s: State, snapshot: Seq<u8>, ips: Seq<Seq<char>>)
    ensures
        steps(s, try_admit(s, snapshot, ips)),
{
    if frozen(s) {
        lobby_steps(State { lobby: Seq::empty(), ..s }, s.freeze_at->0, snapshot, s.lobby, ips);
    }
}

proof fn bury_steps(s: State, ps: Seq<u8>)
    ensures
        steps(s, bury_all(s, ps)),
    decreases ps.len(),
{
    if ps.len() > 0 {
        let mid = bury_all(s, ps.drop_last());
        bury_steps(s, ps.drop_last());
        let pid = ps.last();
        let s1 = cut(State { status: "player "@ + crate::text::dec(pid as nat) + " timed out"@, ..mid }, pid);
        cut_steps(State { status: "player "@ + crate::text::dec(pid as nat) + " timed out"@, ..mid }, pid);
        steps_trans(s, mid, s1);
        down_steps(s1, pid);
        steps_trans(s, s1, on_down(s1, pid));
    }
}

/// So does the upkeep of an update.
pub proof fn upkeep_follows(s: State)
    ensures
        steps(s, tend(s)),
{
    bury_steps(s, dead_among(s, pids(s.roster.dom())));
    migration_steps(State { status: "host went silent — migrating…"@, ..s });
}

/// So does every step of a migration, and leaving.
pub proof fn migration_follows(s: State, snapshot: Seq<u8>, loaded: Option<WorldV>)
    ensures
        steps(s, offer_snapshot(s, snapshot)),
        follows(s, resume(s, loaded)),
        resume(s, loaded).peer_seq == s.peer_seq,
        steps(s, leave(s)),
{
}

/// The world stands still but for its ticks: nothing that arrives or closes, no upkeep, no
/// admission, no departure and nothing that is sent changes it. (What else does is a migration's
/// snapshot, once it is loaded.)
pub proof fn only_ticks_move_the_world(s: State, conn: u64, bytes: Seq<u8>, snapshot: Seq<u8>, ips: Seq<Seq<char>>, dt: u64, n: u32)
    ensures
        on_data(s, conn, bytes).world == s.world,
        on_closed(s, conn).world == s.world,
        try_admit(s, snapshot, ips).world == s.world,
        tend(s).world == s.world,
        pace(s, dt).world == s.world,
        settle(s, n).world == s.world,
        begin_tick(s).world == s.world,
        offer_snapshot(s, snapshot).world == s.world,
        leave(s).world == s.world,
{
    arrival_follows(s, conn, bytes);
    closing_follows(s, conn);
    admission_follows(s, snapshot, ips);
    upkeep_follows(s);
    shipping_follows(s);
    migration_follows(s, snapshot, None);
}

// ----------------------------------------------------------------------
// The gauntlet
// ----------------------------------------------------------------------

/// What a peer says is heard: a frame that a known peer sealed, with a number above the last one
/// seen of it, on a link that is not locked to another key, brings the peer's message.
pub proof fn sealed_words_are_heard(s: State, conn: u64, sender: Seq<u8>, seq: u64, m: MsgV, sig: Seq<u8>)
    requires
        sender.len() == 32,
        sig.len() == 64,
        msg_fits(m),
        put_msg(m).len() < 0x1_0000_0000,
        envelope_valid(EnvelopeV { sender, seq, payload: put_msg(m), sig }),
        s.peer_seq.contains_key(sender) ==> seq > s.peer_seq[sender],
        s.conn_key.contains_key(conn) ==> s.conn_key[conn] == sender,
        s.pid_of.contains_key(conn),
    ensures
        ({
            let e = EnvelopeV { sender, seq, payload: put_msg(m), sig };
            let s1 = note(s, conn, e);
            let heard = State { last_heard: s1.last_heard.insert(s.pid_of[conn], s.now), ..s1 };
            on_data(s, conn, put_envelope(e)) == on_msg(heard, s.pid_of[conn], sender, m)
        }),
{
    let e = EnvelopeV { sender, seq, payload: put_msg(m), sig };
    envelope_reads_back(e, Seq::empty());
    assert(put_envelope(e) + Seq::<u8>::empty() =~= put_envelope(e));
    msg_reads_back(m, Seq::empty());
}

/// A frame that is no envelope, whose signature does not verify, whose number is not above the
/// last one seen of its sender, or whose link is locked to another key changes nothing.
pub proof fn bad_frames_vanish(s: State, conn: u64, bytes: Seq<u8>)
    requires
        envelope_of(bytes) matches Some(e) ==> !admits(s, conn, e),
    ensures
        on_data(s, conn, bytes) == s,
{
}

/// Once a frame was let through, no frame of its sender with the same or a lower number is let
/// through on any link, at once or after any further frame.
pub proof fn replays_vanish(s: State, conn: u64, bytes: Seq<u8>, e: EnvelopeV, conn2: u64, bytes2: Seq<u8>)
    requires
        envelope_of(bytes) == Some(e),
        admits(s, conn, e),
        envelope_of(bytes2) matches Some(e2) ==> e2.sender == e.sender && e2.seq <= e.seq,
    ensures
        on_data(on_data(s, conn, bytes), conn2, bytes2) == on_data(s, conn, bytes),
        forall|c: u64, b: Seq<u8>| #[trigger]
            on_data(on_data(on_data(s, conn, bytes), c, b), conn2, bytes2) == on_data(on_data(s, conn, bytes), c, b),
{
    let s1 = on_data(s, conn, bytes);
    arrival_follows(s, conn, bytes);
    assert forall|c: u64, b: Seq<u8>| #[trigger]
        on_data(on_data(s1, c, b), conn2, bytes2) == on_data(s1, c, b) by {
        arrival_follows(s1, c, b);
        let s2 = on_data(s1, c, b);
        assert(s2.peer_seq.contains_key(e.sender));
        assert(s2.peer_seq[e.sender] >= e.seq);
    }
}

/// Commands for a settlement whose key the sender does not hold change nothing.
pub proof fn foreign_orders_vanish(s: State, from_pid: u8, sender: Seq<u8>, tick: u32, pid: u8, cmds: Seq<CommandV>)
    requires
        !owns(s, pid, sender),
    ensures
        on_msg(s, from_pid, sender, MsgV::Cmds { tick, pid, cmds }) == s,
{
}

/// Commands touch one entry of one row: that of the settlement whose key the sender holds, for
/// a tick that has not run.
pub proof fn orders_touch_one_entry(
    s: State,
    from_pid: u8,
    sender: Seq<u8>,
    tick: u32,
    pid: u8,
    cmds: Seq<CommandV>,
    t: u32,
    p: u8,
)
    requires
        t != tick || p != pid || t < s.world.tick,
    ensures
        ({
            let s1 = on_msg(s, from_pid, sender, MsgV::Cmds { tick, pid, cmds });
            &&& row_at(s1.pending, t).contains_key(p) <==> row_at(s.pending, t).contains_key(p)
            &&& row_at(s.pending, t).contains_key(p) ==> row_at(s1.pending, t)[p] == row_at(s.pending, t)[p]
            &&& s1.world == s.world
            &&& s1.roster == s.roster
        }),
{
}

/// World-control verdicts change nothing unless the host's key speaks them.
pub proof fn only_the_host_rules(s: State, from_pid: u8, sender: Seq<u8>, m: MsgV)
    requires
        sender != host_key(s),
        m is Freeze || m is PeerJoined || m is Left,
    ensures
        on_msg(s, from_pid, sender, m) == s,
{
}

// ----------------------------------------------------------------------
// Lockstep
// ----------------------------------------------------------------------

/// A tick that is ready runs with an entry of everyone in the roster and of every ghost that
/// still has commands to run.
pub proof fn nobody_is_left_out(s: State, p: u8)
    requires
        ready(s, s.world.tick),
        (s.roster.contains_key(p) && owes(s, p, s.world.tick)) || (s.ghosts.contains_key(p) && s.world.tick < s.ghosts[p]),
    ensures
        kept(s, s.world.tick).contains_key(p),
        kept(s, s.world.tick)[p] == s.pending[s.world.tick][p],
{
}

/// Two peers with the same roster, the same ghosts and the same row run the same commands in
/// the same order.
pub proof fn same_inputs_same_tick(a: State, b: State)
    requires
        a.world.tick == b.world.tick,
        a.roster.dom() == b.roster.dom(),
        a.ghosts == b.ghosts,
        row_at(a.pending, a.world.tick) == row_at(b.pending, b.world.tick),
    ensures
        tick_orders(a) == tick_orders(b),
{
    assert forall|p: u8| a.roster.contains_key(p) <==> b.roster.contains_key(p) by {
        assert(a.roster.dom().contains(p) <==> b.roster.dom().contains(p));
    }
    assert(kept(a, a.world.tick) =~= kept(b, b.world.tick));
}

proof fn flat_sorted(ps: Seq<u8>, row: Row, i: int, j: int)
    requires
        forall|x: int, y: int| 0 <= x < y < ps.len() ==> ps[x] < ps[y],
        0 <= i < j < flat(ps, row).len(),
    ensures
        flat(ps, row)[i].0 <= flat(ps, row)[j].0,
        exists|x: int| 0 <= x < ps.len() && ps[x] == flat(ps, row)[j].0,
    decreases ps.len(),
{
    let head = flat(ps.drop_last(), row);
    let mine = Seq::new(row[ps.last()].len(), |k: int| (ps.last(), row[ps.last()][k]));
    assert(flat(ps, row) == head + mine);
    if j < head.len() {
        flat_sorted(ps.drop_last(), row, i, j);
        let x = choose|x: int| 0 <= x < ps.drop_last().len() && ps.drop_last()[x] == head[j].0;
        assert(ps[x] == flat(ps, row)[j].0);
    } else {
        assert(flat(ps, row)[j].0 == ps.last());
        assert(ps[ps.len() - 1] == flat(ps, row)[j].0);
        if i < head.len() {
            flat_pid(ps.drop_last(), row, i);
            let x = choose|x: int| 0 <= x < ps.drop_last().len() && ps.drop_last()[x] == head[i].0;
            assert(ps[x] < ps[ps.len() - 1]);
        }
    }
}

proof fn flat_pid(ps: Seq<u8>, row: Row, i: int)
    requires
        0 <= i < flat(ps, row).len(),
    ensures
        exists|x: int| 0 <= x < ps.len() && ps[x] == flat(ps, row)[i].0,
    decreases ps.len(),
{
    let head = flat(ps.drop_last(), row);
    if i < head.len() {
        flat_pid(ps.drop_last(), row, i);
        let x = choose|x: int| 0 <= x < ps.drop_last().len() && ps.drop_last()[x] == head[i].0;
        assert(ps[x] == flat(ps, row)[i].0);
    } else {
        assert(ps[ps.len() - 1] == flat(ps, row)[i].0);
    }
}

/// A tick runs its commands by ascending player id.
pub proof fn orders_run_by_pid(s: State, i: int, j: int)
    requires
        0 <= i < j < tick_orders(s).len(),
    ensures
        tick_orders(s)[i].0 <= tick_orders(s)[j].0,
{
    let row = kept(s, s.world.tick);
    pids_enumerate(row.dom(), 256);
    flat_sorted(pids(row.dom()), row, i, j);
}

proof fn bots_keep_clock(s: State, t: u32, bs: Seq<u8>)
    ensures
        send_bots(s, t, bs).next_send == s.next_send,
        send_bots(s, t, bs).world == s.world,
        send_bots(s, t, bs).freeze_at == s.freeze_at,
        send_bots(s, t, bs).host_seen == s.host_seen,
        send_bots(s, t, bs).kind == s.kind,
        send_bots(s, t, bs).roster == s.roster,
        send_bots(s, t, bs).ghosts == s.ghosts,
    decreases bs.len(),
{
    if bs.len() > 0 {
        bots_keep_clock(s, t, bs.drop_last());
    }
}

proof fn ticks_keep_clock(s: State, n: nat)
    requires
        s.next_send + n <= u32::MAX,
    ensures
        send_ticks(s, n).next_send == s.next_send + n,
        send_ticks(s, n).world == s.world,
        send_ticks(s, n).freeze_at == s.freeze_at,
        send_ticks(s, n).host_seen == s.host_seen,
        send_ticks(s, n).kind == s.kind,
        send_ticks(s, n).roster == s.roster,
        send_ticks(s, n).ghosts == s.ghosts,
    decreases n,
{
    if n > 0 {
        let t = s.next_send;
        let s1 = give_orders(State { local_q: Seq::empty(), ..s }, t, s.my_pid, s.local_q);
        bots_keep_clock(s1, t, pids(s.bot_q.dom()));
        ticks_keep_clock(send_tick(s), (n - 1) as nat);
    }
}

/// Nothing is sent for a tick at or beyond the freeze point, nor beyond the input delay, nor
/// (by a client) for a tick the host has not reached; up to there, everything is.
pub proof fn shipping_stops_at_the_limit(s: State)
    ensures
        ensure_sent(s).next_send == max32(s.next_send, send_limit(s)),
        send_limit(s) <= sat_add(s.world.tick, (DELAY + 1) as u32),
        s.freeze_at matches Some(fa) ==> send_limit(s) <= fa,
        s.kind == SessionKind::Client ==> send_limit(s) <= s.host_seen,
        ensure_sent(s).world == s.world,
        ensure_sent(s).roster == s.roster,
{
    if s.next_send < send_limit(s) {
        ticks_keep_clock(s, (send_limit(s) - s.next_send) as nat);
    }
}

/// A player's entry in the row of a tick, if there is one.
pub open spec fn entry(s: State, t: u32, p: u8) -> Option<Seq<CommandV>> {
    if s.pending.contains_key(t) && s.pending[t].contains_key(p) {
        Some(s.pending[t][p])
    } else {
        None
    }
}

proof fn bots_spare_others(s: State, t: u32, bs: Seq<u8>, p: u8)
    requires
        !bs.contains(p),
        forall|i: int| 0 <= i < bs.len() ==> s.bot_q.contains_key(#[trigger] bs[i]),
    ensures
        forall|u: u32| #[trigger] entry(send_bots(s, t, bs), u, p) == entry(s, u, p),
        send_bots(s, t, bs).local_q == s.local_q,
        send_bots(s, t, bs).bot_q.dom() == s.bot_q.dom(),
        send_bots(s, t, bs).my_pid == s.my_pid,
        send_bots(s, t, bs).next_send == s.next_send,
    decreases bs.len(),
{
    if bs.len() > 0 {
        let rest = bs.drop_last();
        assert forall|i: int| 0 <= i < rest.len() implies s.bot_q.contains_key(#[trigger] rest[i]) by {
            assert(rest[i] == bs[i]);
        }
        assert(!rest.contains(p)) by {
            if rest.contains(p) {
                let i = rest.index_of(p);
                assert(bs[i] == p);
            }
        }
        bots_spare_others(s, t, rest, p);
        let mid = send_bots(s, t, rest);
        assert(bs[bs.len() - 1] == bs.last());
        assert(bs.last() != p);
        assert(s.bot_q.dom().contains(bs.last()));
        assert(send_bot(mid, t, bs.last()).bot_q.dom() =~= s.bot_q.dom());
        assert forall|u: u32| #[trigger] entry(send_bots(s, t, bs), u, p) == entry(s, u, p) by {
            assert(entry(mid, u, p) == entry(s, u, p));
        }
    }
}

proof fn ticks_ship_mine(s: State, n: nat)
    requires
        !s.bot_q.contains_key(s.my_pid),
        s.next_send + n <= u32::MAX,
    ensures
        forall|u: u32| #[trigger]
            entry(send_ticks(s, n), u, s.my_pid) == (if s.next_send <= u < s.next_send + n {
                Some(
                    if u == s.next_send {
                        s.local_q
                    } else {
                        Seq::empty()
                    },
                )
            } else {
                entry(s, u, s.my_pid)
            }),
        n > 0 ==> send_ticks(s, n).local_q == Seq::<CommandV>::empty(),
    decreases n,
{
    if n > 0 {
        let t = s.next_send;
        let me = s.my_pid;
        let s1 = give_orders(State { local_q: Seq::empty(), ..s }, t, me, s.local_q);
        let bs = pids(s.bot_q.dom());
        pids_enumerate(s.bot_q.dom(), 256);
        assert forall|i: int| 0 <= i < bs.len() implies s1.bot_q.contains_key(#[trigger] bs[i]) by {
            assert(s.bot_q.dom().contains(bs[i]));
        }
        assert(!bs.contains(me)) by {
            if bs.contains(me) {
                let i = bs.index_of(me);
                assert(s1.bot_q.contains_key(bs[i]));
            }
        }
        bots_spare_others(s1, t, bs, me);
        let s2 = send_tick(s);
        assert forall|u: u32| #[trigger] entry(s2, u, me) == (if u == t {
            Some(s.local_q)
        } else {
            entry(s, u, me)
        }) by {
            assert(entry(send_bots(s1, t, bs), u, me) == entry(s1, u, me));
        }
        assert(!s2.bot_q.contains_key(me)) by {
            assert(!s2.bot_q.dom().contains(me));
        }
        ticks_ship_mine(s2, (n - 1) as nat);
        assert forall|u: u32| #[trigger]
            entry(send_ticks(s, n), u, me) == (if t <= u < t + n {
                Some(
                    if u == t {
                        s.local_q
                    } else {
                        Seq::empty()
                    },
                )
            } else {
                entry(s, u, me)
            }) by {
            assert(entry(s2, u, me) == (if u == t {
                Some(s.local_q)
            } else {
                entry(s, u, me)
            }));
            assert(s2.local_q == Seq::<CommandV>::empty());
        }
    }
}

/// What a player ordered runs once: shipping puts it, in its order, into the first tick that is
/// owed, nothing of theirs into the others, and keeps none of it back.
pub proof fn orders_are_shipped_once(s: State, t: u32)
    requires
        !s.bot_q.contains_key(s.my_pid),
        s.next_send < send_limit(s),
    ensures
        entry(ensure_sent(s), s.next_send, s.my_pid) == Some(s.local_q),
        s.next_send < t < send_limit(s) ==> entry(ensure_sent(s), t, s.my_pid) == Some(Seq::<CommandV>::empty()),
        t < s.next_send || t >= send_limit(s) ==> entry(ensure_sent(s), t, s.my_pid) == entry(s, t, s.my_pid),
        ensure_sent(s).local_q == Seq::<CommandV>::empty(),
{
    let n = (send_limit(s) - s.next_send) as nat;
    ticks_ship_mine(s, n);
    assert(entry(send_ticks(s, n), s.next_send, s.my_pid) == Some(s.local_q));
    assert(entry(send_ticks(s, n), t, s.my_pid) == entry(ensure_sent(s), t, s.my_pid));
}

/// No update runs more than eight ticks, and when no tick is due at most one tick's time stays
/// banked.
pub proof fn catch_up_is_bounded(s: State, stepped: u32)
    ensures
        due(s, stepped) ==> stepped < MAX_CATCHUP,
        !due(s, stepped) ==> settle(s, stepped).accum <= TICK_NS,
{
}

/// A desync halts the world: no time is banked, so no tick is due.
pub proof fn desync_halts(s: State, dt: u64, stepped: u32)
    requires
        s.desync_at is Some || s.host_gone,
    ensures
        pace(s, dt).accum == 0,
        !due(pace(s, dt), stepped),
{
    if s.next_send < send_limit(s) {
        ticks_keep_halt(s, (send_limit(s) - s.next_send) as nat);
    }
}

proof fn bots_keep_halt(s: State, t: u32, bs: Seq<u8>)
    ensures
        send_bots(s, t, bs).desync_at == s.desync_at,
        send_bots(s, t, bs).host_gone == s.host_gone,
    decreases bs.len(),
{
    if bs.len() > 0 {
        bots_keep_halt(s, t, bs.drop_last());
    }
}

proof fn ticks_keep_halt(s: State, n: nat)
    ensures
        send_ticks(s, n).desync_at == s.desync_at,
        send_ticks(s, n).host_gone == s.host_gone,
    decreases n,
{
    if n > 0 {
        let s1 = give_orders(State { local_q: Seq::empty(), ..s }, s.next_send, s.my_pid, s.local_q);
        bots_keep_halt(s1, s.next_send, pids(s.bot_q.dom()));
        ticks_keep_halt(send_tick(s), (n - 1) as nat);
    }
}

/// A checksum that differs from our own for the same tick is a desync, and one that agrees is
/// not.
pub proof fn checksums_decide(s: State, from_pid: u8, tick: u32, hash: u64)
    requires
        s.desync_at is None,
    ensures
        on_hash(s, from_pid, tick, hash).desync_at == (match my_hash(s.my_hashes, tick) {
            Some(mine) => if mine != hash {
                Some(tick)
            } else {
                None
            },
            None => None,
        }),
{
}

// ----------------------------------------------------------------------
// Joining
// ----------------------------------------------------------------------

proof fn reclaim_offline(w: WorldV, roster: Map<u8, PeerInfoV>, name: Seq<char>, key: Seq<u8>, i: int)
    requires
        0 <= i,
    ensures
        first_reclaim(w, roster, name, key, i) matches Some(p) ==> !roster.contains_key(p) && exists|k: int|
            i <= k < w.players.len() && k % 256 == p && #[trigger] reclaims(w, roster, name, key, k),
        first_reclaim(w, roster, name, key, i) is None ==> forall|k: int|
            i <= k < w.players.len() ==> !#[trigger] reclaims(w, roster, name, key, k),
    decreases w.players.len() - i,
{
    if i < w.players.len() && !reclaims(w, roster, name, key, i) {
        reclaim_offline(w, roster, name, key, i + 1);
    }
}

proof fn free_offline(w: WorldV, roster: Map<u8, PeerInfoV>, p: int)
    requires
        0 <= p,
    ensures
        first_free(w, roster, p) matches Some(q) ==> p <= q < MAX_PLAYERS && slot_free(w, roster, q as int) && forall|k: int|
            p <= k < q ==> !#[trigger] slot_free(w, roster, k),
        first_free(w, roster, p) is None ==> forall|k: int| p <= k < MAX_PLAYERS ==> !#[trigger] slot_free(w, roster, k),
    decreases MAX_PLAYERS - p,
{
    if p < MAX_PLAYERS && !slot_free(w, roster, p) {
        free_offline(w, roster, p + 1);
    }
}

/// A joiner never gets a pid that is online, and gets a settlement on record only under its
/// name and with its key (or where it has none). A world is full only when no slot is free.
pub proof fn nobody_takes_a_live_seat(w: WorldV, roster: Map<u8, PeerInfoV>, name: Seq<char>, key: Seq<u8>)
    ensures
        pid_for(w, roster, name, key) matches Some(p) ==> !roster.contains_key(p) && ((exists|k: int|
            0 <= k < w.players.len() && k % 256 == p && #[trigger] reclaims(w, roster, name, key, k)) || slot_free(
            w,
            roster,
            p as int,
        )),
        pid_for(w, roster, name, key) is None ==> forall|k: int|
            0 <= k < MAX_PLAYERS ==> !#[trigger] slot_free(w, roster, k),
{
    reclaim_offline(w, roster, name, key, 0);
    free_offline(w, roster, 0);
}

/// Whoever comes back under their name and with their key gets their settlement back: the first
/// one on record that is theirs and not in use.
pub proof fn settlers_reclaim_their_base(w: WorldV, roster: Map<u8, PeerInfoV>, name: Seq<char>, key: Seq<u8>, k: int)
    requires
        0 <= k < w.players.len(),
        reclaims(w, roster, name, key, k),
        forall|j: int| 0 <= j < k ==> !#[trigger] reclaims(w, roster, name, key, j),
    ensures
        pid_for(w, roster, name, key) == Some((k % 256) as u8),
{
    reclaim_found(w, roster, name, key, 0, k);
}

proof fn reclaim_found(w: WorldV, roster: Map<u8, PeerInfoV>, name: Seq<char>, key: Seq<u8>, i: int, k: int)
    requires
        0 <= i <= k < w.players.len(),
        reclaims(w, roster, name, key, k),
        forall|j: int| i <= j < k ==> !#[trigger] reclaims(w, roster, name, key, j),
    ensures
        first_reclaim(w, roster, name, key, i) == Some((k % 256) as u8),
    decreases k - i,
{
    if i < k {
        reclaim_found(w, roster, name, key, i + 1, k);
    }
}

/// After a join the frozen window is empty for everyone in the roster, whatever was there, and
/// no other tick's row changes.
pub proof fn frozen_window_is_empty(s: State, info: PeerInfoV, start_tick: u32, t: u32, p: u8)
    ensures
        ({
            let s1 = apply_join(s, info, start_tick);
            &&& s1.roster == s.roster.insert(info.pid, info)
            &&& start_tick <= t < sat_add(start_tick, DELAY) && s1.roster.contains_key(p) ==> s1.pending.contains_key(t)
                && s1.pending[t].contains_key(p) && s1.pending[t][p] == Seq::<CommandV>::empty()
            &&& !(start_tick <= t < sat_add(start_tick, DELAY)) ==> row_at(s1.pending, t) == row_at(s.pending, t)
            &&& s1.freeze_at is None
        }),
{
    claims_steps(
        State { roster: s.roster.insert(info.pid, info), pending_dials: Seq::empty(), ..s },
        s.pending_dials,
    );
}

/// Two peers with the same roster that hear of the same join agree on every row of the frozen
/// window, as far as the roster goes.
pub proof fn join_agrees_everywhere(a: State, b: State, info: PeerInfoV, start_tick: u32, t: u32, p: u8)
    requires
        a.roster == b.roster,
        start_tick <= t < sat_add(start_tick, DELAY),
        a.roster.contains_key(p) || p == info.pid,
    ensures
        apply_join(a, info, start_tick).pending[t][p] == apply_join(b, info, start_tick).pending[t][p],
        apply_join(a, info, start_tick).roster == apply_join(b, info, start_tick).roster,
{
    frozen_window_is_empty(a, info, start_tick, t, p);
    frozen_window_is_empty(b, info, start_tick, t, p);
}

/// A newcomer holds nobody up: a tick before their first one that could run before they arrived
/// can run afterwards, and from the first tick on they are waited for.
pub proof fn newcomers_hold_nobody_up(s: State, info: PeerInfoV, start_tick: u32, t: u32)
    requires
        !s.roster.contains_key(info.pid),
    ensures
        t < start_tick && ready(s, t) ==> ready(apply_join(s, info, start_tick), t),
        t >= start_tick && ready(apply_join(s, info, start_tick), t) ==> apply_join(s, info, start_tick).pending[t].contains_key(
            info.pid,
        ),
{
    frozen_window_is_empty(s, info, start_tick, t, info.pid);
    let s1 = State { roster: s.roster.insert(info.pid, info), pending_dials: Seq::empty(), ..s };
    claims_steps(s1, s.pending_dials);
    let s2 = apply_join(s, info, start_tick);
    assert(s2.roster.contains_key(info.pid));
    if t < start_tick && ready(s, t) {
        assert forall|p: u8| #[trigger] s2.roster.contains_key(p) && owes(s2, p, t) implies s2.pending[t].contains_key(p) by {
            assert(p != info.pid);
            assert(s.roster.contains_key(p) && owes(s, p, t));
        }
        assert forall|p: u8| #[trigger] s2.ghosts.contains_key(p) && t < s2.ghosts[p] implies s2.pending[t].contains_key(p) by {
            assert(s.ghosts.contains_key(p));
        }
    }
}

// ----------------------------------------------------------------------
// Departures
// ----------------------------------------------------------------------

pub(crate) proof fn gap_bounds(pending: Map<u32, Row>, pid: u8, t: u32)
    ensures
        first_gap(pending, pid, t) >= t,
        forall|k: u32|
            t <= k < first_gap(pending, pid, t) ==> (#[trigger] row_at(pending, k)).contains_key(pid),
        first_gap(pending, pid, t) < u32::MAX ==> !row_at(pending, first_gap(pending, pid, t)).contains_key(pid),
    decreases u32::MAX - t,
{
    if t < u32::MAX && row_at(pending, t).contains_key(pid) {
        gap_bounds(pending, pid, (t + 1) as u32);
    }
}

/// When the host rules that a player is gone, the player leaves the roster, and every command
/// of theirs on record for a tick that has not run still runs.
pub proof fn last_orders_still_run(s: State, pid: u8, t: u32)
    requires
        s.roster.contains_key(pid),
        s.world.tick <= t < first_gap(s.pending, pid, s.world.tick),
    ensures
        !verdict(s, pid).roster.contains_key(pid),
        kept(verdict(s, pid), t).contains_key(pid),
        kept(verdict(s, pid), t)[pid] == row_at(s.pending, t)[pid],
{
    gap_bounds(s.pending, pid, s.world.tick);
}

/// The first tick without their commands does not wait for them.
pub proof fn the_departed_are_not_waited_for(s: State, pid: u8, t: u32)
    requires
        s.roster.contains_key(pid),
        t >= first_gap(s.pending, pid, s.world.tick),
        !s.ghosts.contains_key(pid),
    ensures
        ({
            let s1 = verdict(s, pid);
            !s1.roster.contains_key(pid) && !(s1.ghosts.contains_key(pid) && t < s1.ghosts[pid])
        }),
{
    gap_bounds(s.pending, pid, s.world.tick);
}

// ----------------------------------------------------------------------
// Host migration
// ----------------------------------------------------------------------

proof fn elect_least(roster: Map<u8, PeerInfoV>, old: u8, p: int)
    requires
        0 <= p,
    ensures
        elect_from(roster, old, p) matches Some(q) ==> q >= p && electable(roster, old, q) && forall|k: u8|
            p <= k && #[trigger] electable(roster, old, k) ==> q <= k,
        elect_from(roster, old, p) is None ==> forall|k: u8| p <= k ==> !#[trigger] electable(roster, old, k),
    decreases 256 - p,
{
    if p < 256 && !electable(roster, old, p as u8) {
        elect_least(roster, old, p + 1);
        assert forall|k: u8| p <= k && #[trigger] electable(roster, old, k) implies p + 1 <= k by {
            if k == p {
                assert(k == p as u8);
            }
        }
    }
}

/// The successor is the lowest pid in the roster that is neither the old host nor a bot; there
/// is none only when no such player is left. It follows from the roster alone, so survivors with
/// one roster elect one host.
pub proof fn successor_is_lowest(roster: Map<u8, PeerInfoV>, gone: u8)
    ensures
        elect(roster, gone) matches Some(p) ==> electable(roster, gone, p) && forall|k: u8| #[trigger]
            electable(roster, gone, k) ==> p <= k,
        elect(roster, gone) is None <==> forall|k: u8| !#[trigger] electable(roster, gone, k),
{
    elect_least(roster, gone, 0);
}

/// Of the survivors with one roster and one host, exactly the elected one takes the world over.
pub proof fn one_successor(s: State)
    requires
        s.need is Nothing,
    ensures
        begin_migration(s).need is Snapshot <==> elect(s.roster, s.host_pid) == Some(s.my_pid),
        begin_migration(s).migration == (match elect(s.roster, s.host_pid) {
            Some(p) => Some(p),
            None => s.migration,
        }),
{
}

/// Survivors with one roster that adopt the same snapshot agree on everything the next ticks
/// run from, no matter what they had before.
pub proof fn survivors_converge(a: State, b: State, gone: u8, new_host: u8, bots: Seq<u8>, w: WorldV)
    requires
        a.roster == b.roster,
    ensures
        ({
            let x = adopt(a, gone, new_host, bots, w);
            let y = adopt(b, gone, new_host, bots, w);
            &&& x.world == w && y.world == w
            &&& x.roster == y.roster
            &&& x.host_pid == new_host && y.host_pid == new_host
            &&& x.pending == y.pending
            &&& x.ghosts == y.ghosts
            &&& x.starts == y.starts
            &&& x.next_send == y.next_send
            &&& x.host_seen == y.host_seen
            &&& x.migration is None && y.migration is None
            &&& tick_orders(x) == tick_orders(y)
        }),
{
    let x = adopt(a, gone, new_host, bots, w);
    let y = adopt(b, gone, new_host, bots, w);
    same_inputs_same_tick(x, y);
}

proof fn rekeyed(roster: Map<u8, PeerInfoV>, bots: Seq<u8>, key: Seq<u8>)
    ensures
        rekey(roster, bots, key).dom() == roster.dom(),
        forall|p: u8| #[trigger]
            roster.contains_key(p) ==> rekey(roster, bots, key)[p] == (if bots.contains(p) {
                PeerInfoV { key, ..roster[p] }
            } else {
                roster[p]
            }),
    decreases bots.len(),
{
    if bots.len() > 0 {
        let head = bots.drop_last();
        rekeyed(roster, head, key);
        let r = rekey(roster, head, key);
        assert(rekey(roster, bots, key).dom() =~= roster.dom());
        assert forall|p: u8| #[trigger] roster.contains_key(p) implies rekey(roster, bots, key)[p] == (if bots.contains(
            p,
        ) {
            PeerInfoV { key, ..roster[p] }
        } else {
            roster[p]
        }) by {
            assert(r.dom().contains(p));
            if bots.contains(p) {
                let i = choose|i: int| 0 <= i < bots.len() && bots[i] == p;
                if p != bots.last() {
                    assert(head[i] == p);
                }
            } else {
                assert(bots[bots.len() - 1] != p);
                if head.contains(p) {
                    let i = choose|i: int| 0 <= i < head.len() && head[i] == p;
                    assert(bots[i] == p);
                }
            }
        }
    }
}

/// After a migration the new host's key authorizes the commands of every bot that was handed
/// over, nobody else's key changes, and the old host is out of the roster.
pub proof fn bots_follow_the_host(s: State, gone: u8, new_host: u8, bots: Seq<u8>, w: WorldV, p: u8)
    requires
        s.roster.contains_key(p),
        p != gone,
    ensures
        ({
            let s1 = adopt(s, gone, new_host, bots, w);
            &&& !s1.roster.contains_key(gone)
            &&& s1.roster.contains_key(p)
            &&& s1.roster[p].key == if bots.contains(p) {
                key_of_pid(s.roster, new_host)
            } else {
                s.roster[p].key
            }
        }),
{
    rekeyed(s.roster.remove(gone), bots, key_of_pid(s.roster, new_host));
    let r = rekey(s.roster.remove(gone), bots, key_of_pid(s.roster, new_host));
    assert(s.roster.remove(gone).contains_key(p));
    assert(r.dom().contains(p));
    assert(!r.dom().contains(gone));
}

} // verus!
