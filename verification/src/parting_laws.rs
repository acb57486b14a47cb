//! What becomes of a world when someone goes: a player who leaves, a host who vanishes, a peer who
//! falls silent; told by the fields of the state alone.

use crate::command::CommandV;
use crate::laws::{entry, gap_bounds};
use crate::protocol::{MsgV, PeerInfoV};
use crate::session_laws::{
    all_in, broadcasts_reach_everyone, host_speaks, may_send, opened_at, reach,
    shipping_covers_what_is_owed, speaks_for,
};
use crate::state::{
    add_queues, adopt, backfilled, begin_migration, bots_among, broadcast, bury, bury_all, cut, dead_among,
    depart, elect, elect_from, electable, ensure_sent, first_gap, key_of_pid, leave, links, no_key,
    offer_snapshot, on_closed, on_msg, record, recorded, rekey, resume, row_at, sat_sub, skip_settle, tend,
    verdict, ActionV, ClaimV, NeedV, Row, SessionKind, State, WorldV,
};
use crate::tables::{pids, pids_enumerate};
use vstd::prelude::*;

verus! {

/// The player's link is forgotten, and no other.
pub open spec fn link_forgotten(s: State, s1: State, pid: u8) -> bool {
    &&& s1.conn_of == s.conn_of.remove(pid)
    &&& s.conn_of.contains_key(pid) ==> s1.pid_of == s.pid_of.remove(s.conn_of[pid]) && s1.conn_key == s.conn_key.remove(
        s.conn_of[pid],
    )
    &&& !s.conn_of.contains_key(pid) ==> s1.pid_of == s.pid_of && s1.conn_key == s.conn_key
}

// ----------------------------------------------------------------------
// Departures
// ----------------------------------------------------------------------

/// Is the row the last one of the list for its tick?
pub open spec fn last_row(rows: Seq<(u32, Seq<CommandV>)>, i: int) -> bool {
    forall|j: int| i < j < rows.len() ==> (#[trigger] rows[j]).0 != rows[i].0
}

/// Is there a row for the tick?
pub open spec fn has_row(rows: Seq<(u32, Seq<CommandV>)>, t: u32) -> bool {
    exists|i: int| 0 <= i < rows.len() && (#[trigger] rows[i]).0 == t
}

proof fn rows_more(rows: Seq<(u32, Seq<CommandV>)>, t: u32)
    requires
        rows.len() > 0,
    ensures
        has_row(rows, t) <==> has_row(rows.drop_last(), t) || rows.last().0 == t,
{
    let head = rows.drop_last();
    if has_row(rows, t) {
        let i = choose|i: int| 0 <= i < rows.len() && (#[trigger] rows[i]).0 == t;
        if i < head.len() {
            assert(head[i].0 == t);
        }
    }
    if has_row(head, t) {
        let i = choose|i: int| 0 <= i < head.len() && (#[trigger] head[i]).0 == t;
        assert(rows[i].0 == t);
    }
    if rows.last().0 == t {
        assert(rows[rows.len() - 1].0 == t);
    }
}

spec fn rows_entered(s: State, pid: u8, rows: Seq<(u32, Seq<CommandV>)>, s1: State) -> bool {
    &&& s1 == (State { pending: s1.pending, ..s })
    &&& forall|i: int|
        0 <= i < rows.len() && last_row(rows, i) && s.world.tick <= (#[trigger] rows[i]).0 ==> entry(s1, rows[i].0, pid) == Some(
            rows[i].1,
        )
    &&& forall|t: u32, p: u8|
        p != pid || t < s.world.tick || !has_row(rows, t) ==> #[trigger] entry(s1, t, p) == entry(s, t, p)
}

proof fn entering_rows(s: State, pid: u8, rows: Seq<(u32, Seq<CommandV>)>)
    ensures
        rows_entered(s, pid, rows, backfilled(s, pid, rows)),
    decreases rows.len(),
{
    if rows.len() > 0 {
        let head = rows.drop_last();
        let n = rows.len() - 1;
        entering_rows(s, pid, head);
        let m = backfilled(s, pid, head);
        let s1 = backfilled(s, pid, rows);
        assert forall|i: int| 0 <= i < rows.len() && last_row(rows, i) && s.world.tick <= (#[trigger] rows[i]).0 implies entry(
            s1,
            rows[i].0,
            pid,
        ) == Some(rows[i].1) by {
            if i < n {
                assert(rows[n].0 != rows[i].0);
                assert(head[i] == rows[i]);
                assert forall|j: int| i < j < head.len() implies (#[trigger] head[j]).0 != head[i].0 by {
                    assert(rows[j].0 != rows[i].0);
                }
                assert(last_row(head, i));
                assert(entry(m, head[i].0, pid) == Some(head[i].1));
            }
        }
        assert forall|t: u32, p: u8| p != pid || t < s.world.tick || !has_row(rows, t) implies #[trigger] entry(s1, t, p) == entry(
            s,
            t,
            p,
        ) by {
            rows_more(rows, t);
            assert(entry(m, t, p) == entry(s, t, p));
        }
    }
}

/// When the host rules that a player left, the player is out of the roster. The orders that the host
/// sent along are held for every tick that has not run, in place of what was held; before the tick the
/// host named they still run, and from there on nobody waits for the player. The player's link is
/// closed and forgotten, and nobody else's entry or seat changes.
pub proof fn verdicts_are_followed(
    s: State,
    from_pid: u8,
    sender: Seq<u8>,
    pid: u8,
    from: u32,
    backfill: Seq<(u32, Seq<CommandV>)>,
    i: int,
    t: u32,
    p: u8,
)
    requires
        host_speaks(s, sender),
        s.roster.contains_key(pid),
    ensures
        ({
            let s1 = on_msg(s, from_pid, sender, MsgV::Left { pid, from, backfill });
            &&& s1.roster == s.roster.remove(pid)
            &&& 0 <= i < backfill.len() && last_row(backfill, i) && s.world.tick <= backfill[i].0 ==> entry(
                s1,
                backfill[i].0,
                pid,
            ) == Some(backfill[i].1)
            &&& p != pid || t < s.world.tick || !has_row(backfill, t) ==> entry(s1, t, p) == entry(s, t, p)
            &&& s.world.tick < from ==> s1.ghosts == s.ghosts.insert(pid, from)
            &&& s.world.tick >= from ==> s1.ghosts == s.ghosts
            &&& link_forgotten(s, s1, pid)
            &&& s.conn_of.contains_key(pid) ==> s1.outbox == s.outbox.push(ActionV::Close { conn: s.conn_of[pid] })
            &&& !s.conn_of.contains_key(pid) ==> s1.outbox == s.outbox
            &&& s1 == (State {
                roster: s1.roster,
                pending: s1.pending,
                ghosts: s1.ghosts,
                conn_of: s1.conn_of,
                pid_of: s1.pid_of,
                conn_key: s1.conn_key,
                outbox: s1.outbox,
                status: s1.status,
                ..s
            })
        }),
{
    assert(no_key() =~= Seq::new(32, |i: int| 0u8));
    entering_rows(s, pid, backfill);
    let m = backfilled(s, pid, backfill);
    let s1 = on_msg(s, from_pid, sender, MsgV::Left { pid, from, backfill });
    assert(s1 == depart(m, pid, from));
    assert(s1.pending == m.pending);
    if !s.conn_of.contains_key(pid) {
        assert(s1.conn_of =~= s.conn_of.remove(pid));
    }
    if 0 <= i < backfill.len() && last_row(backfill, i) && s.world.tick <= backfill[i].0 {
        assert(entry(m, backfill[i].0, pid) == Some(backfill[i].1));
    }
    assert(entry(s1, t, p) == entry(m, t, p));
}

/// After the verdict no tick from the one it names on waits for the player, and the orders before it run
/// as they are held.
pub proof fn worlds_flow_after_a_verdict(s: State, from_pid: u8, sender: Seq<u8>, pid: u8, from: u32, backfill: Seq<
    (u32, Seq<CommandV>),
>, t: u32)
    requires
        host_speaks(s, sender),
        s.roster.contains_key(pid),
        !s.ghosts.contains_key(pid),
        from <= t,
        s.pending.contains_key(t),
        forall|p: u8| #[trigger]
            s.roster.contains_key(p) && p != pid && (s.starts.contains_key(p) ==> s.starts[p] <= t) ==> s.pending[t].contains_key(
                p,
            ),
        forall|p: u8| #[trigger] s.ghosts.contains_key(p) && t < s.ghosts[p] ==> s.pending[t].contains_key(p),
    ensures
        all_in(on_msg(s, from_pid, sender, MsgV::Left { pid, from, backfill }), t),
{
    let s1 = on_msg(s, from_pid, sender, MsgV::Left { pid, from, backfill });
    verdicts_are_followed(s, from_pid, sender, pid, from, backfill, 0, t, pid);
    assert forall|p: u8| p != pid implies #[trigger] entry(s1, t, p) == entry(s, t, p) by {
        verdicts_are_followed(s, from_pid, sender, pid, from, backfill, 0, t, p);
    }
    assert(no_key() =~= Seq::new(32, |i: int| 0u8));
    rows_keep(s, pid, backfill, t);
    assert(s1.pending.contains_key(t));
    assert forall|p: u8| #[trigger] s1.roster.contains_key(p) && (s1.starts.contains_key(p) ==> s1.starts[p]
        <= t) implies s1.pending[t].contains_key(p) by {
        assert(s.roster.contains_key(p));
        assert(entry(s1, t, p) == entry(s, t, p));
    }
    assert forall|p: u8| #[trigger] s1.ghosts.contains_key(p) && t < s1.ghosts[p] implies s1.pending[t].contains_key(p) by {
        assert(p != pid);
        assert(s.ghosts.contains_key(p));
        assert(entry(s1, t, p) == entry(s, t, p));
    }
}

proof fn rows_keep(s: State, pid: u8, rows: Seq<(u32, Seq<CommandV>)>, t: u32)
    requires
        s.pending.contains_key(t),
    ensures
        backfilled(s, pid, rows).pending.contains_key(t),
    decreases rows.len(),
{
    if rows.len() > 0 {
        rows_keep(s, pid, rows.drop_last(), t);
    }
}

/// What is on record of a player's orders for a tick: what is held for it, or else what it ran.
pub open spec fn on_record(s: State, pid: u8, t: u32) -> Option<Seq<CommandV>> {
    match entry(s, t, pid) {
        Some(cs) => Some(cs),
        None => if s.history.contains_key(t) && s.history[t].contains_key(pid) {
            Some(s.history[t][pid])
        } else {
            None
        },
    }
}

/// Does the list hold the record of the ticks from `lo` up to `hi`, each tick once?
pub open spec fn is_record(s: State, pid: u8, lo: int, hi: int, rows: Seq<(u32, Seq<CommandV>)>) -> bool {
    &&& forall|i: int|
        0 <= i < rows.len() ==> lo <= (#[trigger] rows[i]).0 < hi && on_record(s, pid, rows[i].0) == Some(rows[i].1)
    &&& forall|i: int, j: int| 0 <= i < j < rows.len() ==> (#[trigger] rows[i]).0 < (#[trigger] rows[j]).0
    &&& forall|t: u32| lo <= t < hi && #[trigger] on_record(s, pid, t) is Some ==> has_row(rows, t)
}

proof fn recording(s: State, pid: u8, lo: u32, hi: u32)
    ensures
        is_record(s, pid, lo as int, hi as int, record(s, pid, lo, hi)),
    decreases hi,
{
    if lo < hi {
        let last = (hi - 1) as u32;
        recording(s, pid, lo, last);
        let head = record(s, pid, lo, last);
        let rows = record(s, pid, lo, hi);
        assert(recorded(s, pid, last) == on_record(s, pid, last));
        assert forall|t: u32| lo <= t < hi && #[trigger] on_record(s, pid, t) is Some implies has_row(rows, t) by {
            if t < last {
                let i = choose|i: int| 0 <= i < head.len() && (#[trigger] head[i]).0 == t;
                assert(rows[i].0 == t);
            } else {
                assert(rows[rows.len() - 1].0 == t);
            }
        }
    }
}

proof fn gap_found(s: State, pid: u8)
    ensures
        ({
            let g = first_gap(s.pending, pid, s.world.tick);
            &&& s.world.tick <= g
            &&& forall|t: u32| s.world.tick <= t < g ==> #[trigger] entry(s, t, pid) is Some
            &&& g < u32::MAX ==> entry(s, g, pid) is None
        }),
{
    gap_bounds(s.pending, pid, s.world.tick);
    let g = first_gap(s.pending, pid, s.world.tick);
    assert forall|t: u32| s.world.tick <= t < g implies #[trigger] entry(s, t, pid) is Some by {
        assert(row_at(s.pending, t).contains_key(pid));
    }
}

/// Does the action tell the whole mesh that the player left, with all that they ordered? The tick named
/// is the first that nothing of theirs is held for, and the record reaches sixteen ticks back.
pub open spec fn is_verdict(s: State, x: ActionV, pid: u8, from: u32) -> bool {
    &&& s.world.tick <= from
    &&& forall|t: u32| s.world.tick <= t < from ==> #[trigger] entry(s, t, pid) is Some
    &&& from < u32::MAX ==> entry(s, from, pid) is None
    &&& x matches ActionV::Send { to, seq, msg } && reach(to, s.conn_of, None) && (msg matches MsgV::Left {
        pid: gone,
        from: first,
        backfill,
    } && gone == pid && first == from && is_record(
        s,
        pid,
        if s.world.tick < 16 {
            0
        } else {
            s.world.tick - 16
        },
        from as int,
        backfill,
    ))
}

/// A host whose player is gone rules so: the whole mesh is told, with the record of their orders; they
/// are out of the roster; what they ordered for ticks to come still runs, and from the first tick
/// without orders of theirs on nobody waits for them. Nothing else in the world changes.
pub proof fn the_host_rules_on_the_gone(s: State, pid: u8)
    requires
        s.roster.contains_key(pid),
    ensures
        ({
            let s1 = verdict(s, pid);
            let n = s.outbox.len() as int;
            &&& s1.outbox.len() > n
            &&& forall|i: int| 0 <= i < n ==> #[trigger] s1.outbox[i] == s.outbox[i]
            &&& exists|from: u32| #[trigger]
                is_verdict(s, s1.outbox[n], pid, from) && s1.ghosts == (if s.world.tick < from {
                    s.ghosts.insert(pid, from)
                } else {
                    s.ghosts
                })
            &&& s1.roster == s.roster.remove(pid)
            &&& s1.pending == s.pending
            &&& link_forgotten(s, s1, pid)
            &&& s1.outbox.len() == n + 1 || (s.conn_of.contains_key(pid) && s1.outbox.len() == n + 2 && s1.outbox[n + 1] == (
            ActionV::Close { conn: s.conn_of[pid] }))
            &&& s.conn_of.contains_key(pid) ==> s1.outbox.len() == n + 2
            &&& s1 == (State {
                roster: s1.roster,
                ghosts: s1.ghosts,
                conn_of: s1.conn_of,
                pid_of: s1.pid_of,
                conn_key: s1.conn_key,
                outbox: s1.outbox,
                seq: s1.seq,
                status: s1.status,
                ..s
            })
        }),
{
    let from = first_gap(s.pending, pid, s.world.tick);
    gap_found(s, pid);
    let lo = sat_sub(s.world.tick, 16);
    let backfill = record(s, pid, lo, from);
    recording(s, pid, lo, from);
    let m = broadcast(s, MsgV::Left { pid, from, backfill }, None);
    broadcasts_reach_everyone(s, MsgV::Left { pid, from, backfill }, None);
    let s1 = verdict(s, pid);
    assert(s1 == depart(m, pid, from));
    let n = s.outbox.len() as int;
    assert forall|i: int| 0 <= i < n implies #[trigger] s1.outbox[i] == s.outbox[i] by {
        assert(m.outbox.drop_last()[i] == s.outbox[i]);
    }
    assert(s1.outbox[n] == m.outbox.last());
    assert(is_verdict(s, s1.outbox[n], pid, from));
    if !s.conn_of.contains_key(pid) {
        assert(s1.conn_of =~= s.conn_of.remove(pid));
    }
}

/// Host and peer agree on the departed: a peer that hears the host's verdict holds for every tick that
/// it has not run, up to the first tick without orders of theirs, just what the host has on record, and
/// both go on without the player.
pub proof fn peers_agree_on_the_departed(a: State, pid: u8, b: State, from_pid: u8, t: u32)
    requires
        a.roster.contains_key(pid),
        b.roster.contains_key(pid),
        host_speaks(b, a.key),
        b.world.tick <= t,
        a.world.tick <= t + 16,
    ensures
        ({
            let a1 = verdict(a, pid);
            &&& a1.outbox.len() > a.outbox.len()
            &&& a1.outbox[a.outbox.len() as int] matches ActionV::Send { to, seq, msg } && ({
                let b1 = on_msg(b, from_pid, a.key, msg);
                &&& msg matches MsgV::Left { pid: gone, from, backfill } && gone == pid && (t < from && on_record(a, pid, t) is Some
                    ==> entry(b1, t, pid) == on_record(a, pid, t)) && (a.world.tick < from && b.world.tick < from
                    ==> b1.ghosts[pid] == from && a1.ghosts[pid] == from)
                &&& !a1.roster.contains_key(pid) && !b1.roster.contains_key(pid)
            })
        }),
{
    the_host_rules_on_the_gone(a, pid);
    let a1 = verdict(a, pid);
    let x = a1.outbox[a.outbox.len() as int];
    let from = choose|from: u32| #[trigger]
        is_verdict(a, x, pid, from) && a1.ghosts == (if a.world.tick < from {
            a.ghosts.insert(pid, from)
        } else {
            a.ghosts
        });
    if let ActionV::Send { to, seq, msg } = x {
        if let MsgV::Left { pid: gone, from: first, backfill } = msg {
            verdicts_are_followed(b, from_pid, a.key, pid, from, backfill, 0, t, pid);
            if t < from && on_record(a, pid, t) is Some {
                assert(has_row(backfill, t));
                let i = choose|i: int| 0 <= i < backfill.len() && (#[trigger] backfill[i]).0 == t;
                assert(last_row(backfill, i)) by {
                    assert forall|j: int| i < j < backfill.len() implies (#[trigger] backfill[j]).0 != backfill[i].0 by {
                        assert(backfill[i].0 < backfill[j].0);
                    }
                }
                verdicts_are_followed(b, from_pid, a.key, pid, from, backfill, i, t, pid);
            }
        }
    }
}

/// A link that goes down is forgotten with every claim on it, and with it the player on it: a host rules
/// on them, a client without its host looks for another, and otherwise nothing happens.
pub proof fn lost_links_are_forgotten(s: State, conn: u64)
    ensures
        ({
            let s1 = on_closed(s, conn);
            let m = State {
                conn_key: s.conn_key.remove(conn),
                pending_dials: s1.pending_dials,
                pid_of: s.pid_of.remove(conn),
                conn_of: if s.pid_of.contains_key(conn) {
                    s.conn_of.remove(s.pid_of[conn])
                } else {
                    s.conn_of
                },
                ..s
            };
            let pid = s.pid_of[conn];
            &&& forall|i: int| 0 <= i < s1.pending_dials.len() ==> (#[trigger] s1.pending_dials[i]).conn != conn
            &&& forall|i: int|
                0 <= i < s.pending_dials.len() && (#[trigger] s.pending_dials[i]).conn != conn ==> s1.pending_dials.contains(
                    s.pending_dials[i],
                )
            &&& !s.pid_of.contains_key(conn) ==> s1 == (State { pid_of: s.pid_of, ..m })
            &&& s.pid_of.contains_key(conn) && s.kind == SessionKind::Solo ==> s1 == m
            &&& s.pid_of.contains_key(conn) && s.kind == SessionKind::Host && !s.roster.contains_key(pid) ==> s1 == m
            &&& s.pid_of.contains_key(conn) && s.kind == SessionKind::Host && s.roster.contains_key(pid) ==> s1 == verdict(m, pid)
                && !s1.roster.contains_key(pid)
            &&& s.pid_of.contains_key(conn) && s.kind == SessionKind::Client && pid == s.host_pid ==> s1 == begin_migration(m)
            &&& s.pid_of.contains_key(conn) && s.kind == SessionKind::Client && pid != s.host_pid && s.migration != Some(pid)
                ==> s1 == m
            &&& s.pid_of.contains_key(conn) && s.kind == SessionKind::Client && pid != s.host_pid && s.migration == Some(pid)
                ==> s1 == begin_migration(State { migration: None, ..m })
        }),
{
    let f = |c: ClaimV| c.conn != conn;
    let d = s.pending_dials.filter(f);
    let s1 = on_closed(s, conn);
    assert(s1.pending_dials == d);
    assert forall|i: int| 0 <= i < d.len() implies (#[trigger] d[i]).conn != conn by {
        s.pending_dials.lemma_filter_pred(f, i);
        assert(f(d[i]));
    }
    assert forall|i: int| 0 <= i < s.pending_dials.len() && (#[trigger] s.pending_dials[i]).conn != conn implies d.contains(
        s.pending_dials[i],
    ) by {
        assert(f(s.pending_dials[i]));
        s.pending_dials.lemma_filter_contains(f, i);
    }
    if s.pid_of.contains_key(conn) && s.kind == SessionKind::Host && s.roster.contains_key(s.pid_of[conn]) {
        let m = State {
            conn_key: s.conn_key.remove(conn),
            pending_dials: d,
            pid_of: s.pid_of.remove(conn),
            conn_of: s.conn_of.remove(s.pid_of[conn]),
            ..s
        };
        the_host_rules_on_the_gone(m, s.pid_of[conn]);
    }
}

// ----------------------------------------------------------------------
// Host migration
// ----------------------------------------------------------------------

/// May the player lead in place of the one who is gone: another player of the roster, and no bot?
pub open spec fn may_lead(roster: Map<u8, PeerInfoV>, gone: u8, p: u8) -> bool {
    roster.contains_key(p) && p != gone && !roster[p].bot
}

/// Is the player the one to lead: the lowest seat that may?
pub open spec fn leads(roster: Map<u8, PeerInfoV>, gone: u8, p: u8) -> bool {
    may_lead(roster, gone, p) && forall|q: u8| #[trigger] may_lead(roster, gone, q) ==> p <= q
}

/// The lowest seat of a player leads; there is nobody only if nobody may.
pub proof fn the_lowest_seat_leads(roster: Map<u8, PeerInfoV>, gone: u8)
    ensures
        elect(roster, gone) matches Some(p) ==> leads(roster, gone, p),
        elect(roster, gone) is None ==> forall|q: u8| !#[trigger] may_lead(roster, gone, q),
{
    electing(roster, gone, 0);
}

proof fn electing(roster: Map<u8, PeerInfoV>, gone: u8, p: int)
    requires
        0 <= p,
    ensures
        elect_from(roster, gone, p) matches Some(q) ==> q >= p && may_lead(roster, gone, q) && forall|k: u8|
            p <= k && #[trigger] may_lead(roster, gone, k) ==> q <= k,
        elect_from(roster, gone, p) is None ==> forall|k: u8| p <= k ==> !#[trigger] may_lead(roster, gone, k),
    decreases 256 - p,
{
    if p < 256 {
        assert(electable(roster, gone, p as u8) == may_lead(roster, gone, p as u8));
        if !electable(roster, gone, p as u8) {
            electing(roster, gone, p + 1);
            assert forall|k: u8| p <= k && #[trigger] may_lead(roster, gone, k) implies p + 1 <= k by {
                if k == p {
                    assert(k == p as u8);
                }
            }
        }
    }
}

/// Without its host a world waits for the one to lead, who is asked for the world as they have it; the old
/// host's link is forgotten. Where nobody may lead the world stands still. Nothing else changes.
pub proof fn the_next_in_line_takes_over(s: State, p: u8)
    ensures
        ({
            let s1 = begin_migration(s);
            &&& leads(s.roster, s.host_pid, p) ==> s1.migration == Some(p) && s1.host_gone == s.host_gone && link_forgotten(
                s,
                s1,
                s.host_pid,
            ) && (p == s.my_pid ==> s1.need is Snapshot) && (p != s.my_pid ==> s1.need == s.need)
            &&& (forall|q: u8| !#[trigger] may_lead(s.roster, s.host_pid, q)) ==> s1 == (State {
                host_gone: true,
                status: s1.status,
                ..s
            })
            &&& s1 == (State {
                host_gone: s1.host_gone,
                migration: s1.migration,
                need: s1.need,
                conn_of: s1.conn_of,
                pid_of: s1.pid_of,
                conn_key: s1.conn_key,
                status: s1.status,
                ..s
            })
        }),
{
    the_lowest_seat_leads(s.roster, s.host_pid);
    if leads(s.roster, s.host_pid, p) {
        assert(may_lead(s.roster, s.host_pid, p));
        assert(elect(s.roster, s.host_pid) == Some(p)) by {
            if let Some(q) = elect(s.roster, s.host_pid) {
                assert(may_lead(s.roster, s.host_pid, q));
            }
        }
        if !s.conn_of.contains_key(s.host_pid) {
            assert(begin_migration(s).conn_of =~= s.conn_of.remove(s.host_pid));
        }
    } else if forall|q: u8| !#[trigger] may_lead(s.roster, s.host_pid, q) {
        if let Some(q) = elect(s.roster, s.host_pid) {
            assert(may_lead(s.roster, s.host_pid, q));
        }
    }
}

/// Are these the bots of the roster?
pub open spec fn all_bots(roster: Map<u8, PeerInfoV>, bots: Seq<u8>) -> bool {
    forall|p: u8| #[trigger] bots.contains(p) <==> roster.contains_key(p) && roster[p].bot
}

proof fn bots_listed(ps: Seq<u8>, roster: Map<u8, PeerInfoV>)
    ensures
        forall|p: u8| #[trigger] bots_among(ps, roster).contains(p) <==> ps.contains(p) && roster[p].bot,
    decreases ps.len(),
{
    if ps.len() > 0 {
        let head = ps.drop_last();
        bots_listed(head, roster);
        let a = bots_among(head, roster);
        let b = bots_among(ps, roster);
        assert forall|p: u8| #[trigger] b.contains(p) <==> ps.contains(p) && roster[p].bot by {
            assert(a.contains(p) <==> head.contains(p) && roster[p].bot);
            if b.contains(p) {
                let i = choose|i: int| 0 <= i < b.len() && b[i] == p;
                if i < a.len() {
                    assert(a[i] == p);
                    let j = choose|j: int| 0 <= j < head.len() && head[j] == p;
                    assert(ps[j] == p);
                } else {
                    assert(ps[ps.len() - 1] == p);
                }
            }
            if ps.contains(p) && roster[p].bot {
                let j = choose|j: int| 0 <= j < ps.len() && ps[j] == p;
                if j < head.len() {
                    assert(head[j] == p);
                    let i = choose|i: int| 0 <= i < a.len() && a[i] == p;
                    assert(b[i] == p);
                } else {
                    assert(b[b.len() - 1] == p);
                }
            }
        }
    }
}

/// The one who takes over tells the whole mesh: who is gone, which seats are bots, and the world's bytes;
/// and adopts the same themselves.
pub proof fn a_takeover_is_told(s: State, snapshot: Seq<u8>)
    ensures
        ({
            let s1 = offer_snapshot(s, snapshot);
            &&& s1.outbox.len() == s.outbox.len() + 1
            &&& s1.outbox.drop_last() == s.outbox
            &&& s1.outbox.last() matches ActionV::Send { to, seq, msg } && reach(to, s.conn_of, None) && (
            msg matches MsgV::MigrateResume { old: gone, resume_tick, bots, snapshot: bytes } && gone == s.host_pid && resume_tick
                == s.world.tick && all_bots(s.roster, bots) && bytes == snapshot && s1.need == (NeedV::Load {
                old: gone,
                new_host: s.my_pid,
                bots,
                snapshot,
            }))
            &&& s1 == (State { need: s1.need, outbox: s1.outbox, seq: s1.seq, ..s })
        }),
{
    let ps = pids(s.roster.dom());
    let bots = bots_among(ps, s.roster);
    pids_enumerate(s.roster.dom(), 256);
    bots_listed(ps, s.roster);
    assert forall|p: u8| #[trigger] bots.contains(p) <==> s.roster.contains_key(p) && s.roster[p].bot by {
        if bots.contains(p) {
            let i = choose|i: int| 0 <= i < ps.len() && ps[i] == p;
            assert(s.roster.dom().contains(ps[i]));
        }
        if s.roster.contains_key(p) {
            assert(s.roster.dom().contains(p));
            assert(ps.contains(p));
        }
    }
    broadcasts_reach_everyone(
        s,
        MsgV::MigrateResume { old: s.host_pid, resume_tick: s.world.tick, bots, snapshot },
        None,
    );
}

/// A peer takes the world from the one to lead, under their own key and in place of the host it follows;
/// from anybody else it takes nothing.
pub proof fn only_the_leader_is_followed(
    s: State,
    from_pid: u8,
    sender: Seq<u8>,
    gone: u8,
    resume_tick: u32,
    bots: Seq<u8>,
    snapshot: Seq<u8>,
)
    ensures
        ({
            let s1 = on_msg(s, from_pid, sender, MsgV::MigrateResume { old: gone, resume_tick, bots, snapshot });
            let right = gone == s.host_pid && leads(s.roster, gone, from_pid) && s.roster[from_pid].key == sender;
            &&& right ==> s1 == (State {
                migration: None,
                need: NeedV::Load { old: gone, new_host: from_pid, bots, snapshot },
                ..s
            })
            &&& !right ==> s1 == s
        }),
{
    the_lowest_seat_leads(s.roster, gone);
    if leads(s.roster, gone, from_pid) {
        assert(may_lead(s.roster, gone, from_pid));
        if let Some(q) = elect(s.roster, gone) {
            assert(may_lead(s.roster, gone, q));
            assert(q == from_pid);
        }
    }
}

/// Survivors with one roster and one host load the same world: the one to lead and a peer who hears of
/// it are asked for the same load.
pub proof fn survivors_load_one_world(a: State, b: State, snapshot: Seq<u8>)
    requires
        a.roster == b.roster,
        a.host_pid == b.host_pid,
        leads(a.roster, a.host_pid, a.my_pid),
        a.roster[a.my_pid].key == a.key,
    ensures
        offer_snapshot(a, snapshot).outbox.last() matches ActionV::Send { to, seq, msg } && on_msg(b, a.my_pid, a.key, msg).need
            == offer_snapshot(a, snapshot).need,
{
    a_takeover_is_told(a, snapshot);
    if let ActionV::Send { to, seq, msg } = offer_snapshot(a, snapshot).outbox.last() {
        if let MsgV::MigrateResume { old: gone, resume_tick, bots, snapshot: bytes } = msg {
            only_the_leader_is_followed(b, a.my_pid, a.key, gone, resume_tick, bots, bytes);
        }
    }
}

/// A snapshot that cannot be read halts the world where it stands; one that can is adopted.
pub proof fn loads_are_adopted_or_halt(s: State, gone: u8, new_host: u8, bots: Seq<u8>, snapshot: Seq<u8>, w: WorldV)
    requires
        s.need == (NeedV::Load { old: gone, new_host, bots, snapshot }),
    ensures
        resume(s, Some(w)) == adopt(State { need: NeedV::Nothing, ..s }, gone, new_host, bots, w),
        ({
            let s1 = resume(s, None);
            s1.desync_at == Some(s.world.tick) && s1 == (State {
                desync_at: s1.desync_at,
                need: NeedV::Nothing,
                status: s1.status,
                ..s
            })
        }),
{
}

proof fn queues_added(q: Map<u8, Seq<CommandV>>, bots: Seq<u8>, p: u8)
    ensures
        add_queues(q, bots).contains_key(p) <==> q.contains_key(p) || bots.contains(p),
        q.contains_key(p) ==> add_queues(q, bots)[p] == q[p],
        !q.contains_key(p) && bots.contains(p) ==> add_queues(q, bots)[p] == Seq::<CommandV>::empty(),
    decreases bots.len(),
{
    if bots.len() > 0 {
        let head = bots.drop_last();
        queues_added(q, head, p);
        if bots.contains(p) {
            let i = choose|i: int| 0 <= i < bots.len() && bots[i] == p;
            if i < head.len() {
                assert(head[i] == p);
            }
        } else {
            assert(bots[bots.len() - 1] != p);
            if head.contains(p) {
                let i = choose|i: int| 0 <= i < head.len() && head[i] == p;
                assert(bots[i] == p);
            }
        }
    }
}

/// The new host drives the bots: it has a queue for every bot that was handed over, and the queues it
/// had stay. Everybody else goes on as they are, and drives nobody new.
pub proof fn the_new_host_drives_the_bots(s: State, gone: u8, new_host: u8, bots: Seq<u8>, w: WorldV, p: u8)
    ensures
        ({
            let s1 = adopt(s, gone, new_host, bots, w);
            &&& s1.host_pid == new_host
            &&& new_host == s.my_pid ==> s1.kind == SessionKind::Host
            &&& new_host == s.my_pid ==> (s1.bot_q.contains_key(p) <==> s.bot_q.contains_key(p) || bots.contains(p))
            &&& new_host == s.my_pid && s.bot_q.contains_key(p) ==> s1.bot_q[p] == s.bot_q[p]
            &&& new_host == s.my_pid && !s.bot_q.contains_key(p) && bots.contains(p) ==> s1.bot_q[p] == Seq::<CommandV>::empty()
            &&& new_host != s.my_pid ==> s1.kind == s.kind && s1.bot_q == s.bot_q
        }),
{
    queues_added(s.bot_q, bots, p);
}

proof fn rekeying(roster: Map<u8, PeerInfoV>, bots: Seq<u8>, key: Seq<u8>, p: u8)
    ensures
        rekey(roster, bots, key).contains_key(p) <==> roster.contains_key(p),
        roster.contains_key(p) && bots.contains(p) ==> rekey(roster, bots, key)[p] == (PeerInfoV { key, ..roster[p] }),
        roster.contains_key(p) && !bots.contains(p) ==> rekey(roster, bots, key)[p] == roster[p],
    decreases bots.len(),
{
    if bots.len() > 0 {
        let head = bots.drop_last();
        rekeying(roster, head, key, p);
        if bots.contains(p) {
            let i = choose|i: int| 0 <= i < bots.len() && bots[i] == p;
            if i < head.len() {
                assert(head[i] == p);
            }
        } else {
            assert(bots[bots.len() - 1] != p);
            if head.contains(p) {
                let i = choose|i: int| 0 <= i < head.len() && head[i] == p;
                assert(bots[i] == p);
            }
        }
    }
}

/// An adopted world starts afresh at its own tick: everyone but the one who is gone is in it, the bots
/// under the new host's key, with an empty input window, and nothing is left of what was ordered before.
pub proof fn an_adopted_world_starts_afresh(s: State, gone: u8, new_host: u8, bots: Seq<u8>, w: WorldV, p: u8)
    requires
        s.roster.contains_key(new_host),
    ensures
        ({
            let s1 = adopt(s, gone, new_host, bots, w);
            &&& s1.world == w
            &&& s1.roster.contains_key(p) <==> s.roster.contains_key(p) && p != gone
            &&& s1.roster.contains_key(p) && bots.contains(p) ==> s1.roster[p] == (PeerInfoV {
                key: s.roster[new_host].key,
                ..s.roster[p]
            })
            &&& s1.roster.contains_key(p) && !bots.contains(p) ==> s1.roster[p] == s.roster[p]
            &&& opened_at(s1, w.tick)
            &&& s1.host_seen == s1.next_send
            &&& s1.local_q.len() == 0
            &&& s1.ghosts == Map::<u8, u32>::empty() && s1.starts == Map::<u8, u32>::empty() && s1.history == Map::<
                u32,
                Row,
            >::empty()
            &&& !s1.host_gone && s1.migration is None
            &&& link_forgotten(s, s1, gone)
            &&& s1 == (State {
                world: w,
                roster: s1.roster,
                host_pid: s1.host_pid,
                kind: s1.kind,
                bot_q: s1.bot_q,
                pending: s1.pending,
                history: s1.history,
                ghosts: s1.ghosts,
                starts: s1.starts,
                local_q: s1.local_q,
                next_send: s1.next_send,
                host_seen: s1.host_seen,
                host_gone: s1.host_gone,
                migration: s1.migration,
                conn_of: s1.conn_of,
                pid_of: s1.pid_of,
                conn_key: s1.conn_key,
                status: s1.status,
                ..s
            })
        }),
{
    rekeying(s.roster.remove(gone), bots, key_of_pid(s.roster, new_host), p);
    let s1 = adopt(s, gone, new_host, bots, w);
    if !s.conn_of.contains_key(gone) {
        assert(s1.conn_of =~= s.conn_of.remove(gone));
    }
}

/// A host who is alone with its bots waits for nobody: every tick that it may send for can run once it
/// has shipped what it owes.
pub proof fn a_host_alone_with_its_bots_never_waits(s: State, t: u32)
    requires
        !s.bot_q.contains_key(s.my_pid),
        s.next_send <= t,
        may_send(s, t),
        forall|p: u8| #[trigger] s.roster.contains_key(p) ==> speaks_for(s, p),
        forall|p: u8| #[trigger] s.ghosts.contains_key(p) ==> s.ghosts[p] <= t,
    ensures
        all_in(ensure_sent(s), t),
{
    let s1 = ensure_sent(s);
    shipping_covers_what_is_owed(s, t, s.my_pid);
    assert(entry(s1, t, s.my_pid) is Some);
    assert forall|p: u8| #[trigger] s1.roster.contains_key(p) && (s1.starts.contains_key(p) ==> s1.starts[p]
        <= t) implies s1.pending[t].contains_key(p) by {
        assert(s.roster.contains_key(p));
        shipping_covers_what_is_owed(s, t, p);
        assert(entry(s1, t, p) is Some);
    }
    assert forall|p: u8| #[trigger] s1.ghosts.contains_key(p) && t < s1.ghosts[p] implies s1.pending[t].contains_key(p) by {
        assert(s.ghosts.contains_key(p));
    }
}

/// So a world goes on after its host vanished: where only bots are left besides the new host, every tick of
/// the adopted world's input window and the one after it can run.
pub proof fn a_world_goes_on_after_a_takeover(s: State, gone: u8, bots: Seq<u8>, w: WorldV, t: u32)
    requires
        s.roster.contains_key(s.my_pid),
        gone != s.my_pid,
        all_bots(s.roster, bots),
        forall|p: u8| #[trigger] s.roster.contains_key(p) ==> p == gone || p == s.my_pid || s.roster[p].bot,
        !s.roster[s.my_pid].bot,
        !s.bot_q.contains_key(s.my_pid),
        s.freeze_at is None,
        w.tick <= t <= w.tick + 3,
        t < u32::MAX,
    ensures
        all_in(ensure_sent(adopt(s, gone, s.my_pid, bots, w)), t),
{
    let m = adopt(s, gone, s.my_pid, bots, w);
    let s1 = ensure_sent(m);
    an_adopted_world_starts_afresh(s, gone, s.my_pid, bots, w, s.my_pid);
    the_new_host_drives_the_bots(s, gone, s.my_pid, bots, w, s.my_pid);
    assert(!bots.contains(s.my_pid));
    assert forall|p: u8| #[trigger] m.roster.contains_key(p) implies speaks_for(m, p) by {
        an_adopted_world_starts_afresh(s, gone, s.my_pid, bots, w, p);
        the_new_host_drives_the_bots(s, gone, s.my_pid, bots, w, p);
        assert(s.roster.contains_key(p));
        if p != s.my_pid {
            assert(bots.contains(p));
        }
    }
    if t < m.next_send {
        shipping_covers_what_is_owed(m, t, s.my_pid);
        assert forall|p: u8| #[trigger] entry(s1, t, p) == entry(m, t, p) by {
            shipping_covers_what_is_owed(m, t, p);
        }
        assert(m.roster.contains_key(s.my_pid));
        assert(entry(m, t, s.my_pid) is Some);
        assert(entry(s1, t, s.my_pid) is Some);
        assert forall|p: u8| #[trigger] s1.roster.contains_key(p) && (s1.starts.contains_key(p) ==> s1.starts[p]
            <= t) implies s1.pending[t].contains_key(p) by {
            assert(m.roster.contains_key(p));
            assert(entry(s1, t, p) == entry(m, t, p));
        }
    } else {
        a_host_alone_with_its_bots_never_waits(m, t);
    }
}

// ----------------------------------------------------------------------
// Upkeep
// ----------------------------------------------------------------------

/// Has nothing been heard of the player for more than half a minute?
pub open spec fn quiet(s: State, p: u8) -> bool {
    s.last_heard.contains_key(p) && s.now - s.last_heard[p] > 30_000_000_000
}

/// While a migration is in flight no time is banked and nothing else happens. A client whose host is quiet
/// looks for another; one whose host is not, and a world that is offline, does nothing.
pub proof fn quiet_hosts_are_replaced(s: State)
    ensures
        ({
            let s1 = tend(s);
            &&& s.migration is Some ==> s1 == (State { accum: 0, ..s })
            &&& s.migration is None && s.kind == SessionKind::Solo ==> s1 == s
            &&& s.migration is None && s.kind == SessionKind::Client && !quiet(s, s.host_pid) ==> s1 == s
            &&& s.migration is None && s.kind == SessionKind::Client && quiet(s, s.host_pid) ==> s1 == (State {
                status: s1.status,
                ..begin_migration(s)
            })
        }),
{
}

/// Is the host to bury the player: a player of the roster, neither itself nor a bot of its own, who is
/// quiet?
pub open spec fn lost(s: State, p: u8) -> bool {
    s.roster.contains_key(p) && p != s.my_pid && !s.bot_q.contains_key(p) && quiet(s, p)
}

/// Is the mesh told that the player left, by an action from the `k`th on?
pub open spec fn leave_told(outbox: Seq<ActionV>, k: int, pid: u8) -> bool {
    exists|i: int|
        k <= i < outbox.len() && (#[trigger] outbox[i] matches ActionV::Send { to, seq, msg } && (msg matches MsgV::Left {
            pid: gone,
            from,
            backfill,
        } && gone == pid))
}

spec fn buried(s: State, ps: Seq<u8>, s1: State) -> bool {
    &&& s1 == (State {
        roster: s1.roster,
        ghosts: s1.ghosts,
        conn_of: s1.conn_of,
        pid_of: s1.pid_of,
        conn_key: s1.conn_key,
        outbox: s1.outbox,
        seq: s1.seq,
        status: s1.status,
        ..s
    })
    &&& forall|p: u8| #[trigger] s1.roster.contains_key(p) <==> s.roster.contains_key(p) && !ps.contains(p)
    &&& forall|p: u8| #[trigger] s1.roster.contains_key(p) ==> s1.roster[p] == s.roster[p]
    &&& forall|p: u8| #[trigger] s1.conn_of.contains_key(p) <==> s.conn_of.contains_key(p) && !ps.contains(p)
    &&& forall|p: u8| #[trigger] s1.conn_of.contains_key(p) ==> s1.conn_of[p] == s.conn_of[p]
    &&& s1.outbox.len() >= s.outbox.len()
    &&& forall|i: int| 0 <= i < s.outbox.len() ==> #[trigger] s1.outbox[i] == s.outbox[i]
    &&& forall|i: int| 0 <= i < ps.len() ==> leave_told(s1.outbox, s.outbox.len() as int, #[trigger] ps[i])
}

proof fn burying_one(s: State, pid: u8)
    requires
        s.kind == SessionKind::Host,
        s.roster.contains_key(pid),
    ensures
        ({
            let s1 = bury(s, pid);
            &&& s1 == (State {
                roster: s1.roster,
                ghosts: s1.ghosts,
                conn_of: s1.conn_of,
                pid_of: s1.pid_of,
                conn_key: s1.conn_key,
                outbox: s1.outbox,
                seq: s1.seq,
                status: s1.status,
                ..s
            })
            &&& s1.roster == s.roster.remove(pid)
            &&& s1.conn_of == s.conn_of.remove(pid)
            &&& s1.outbox.len() >= s.outbox.len()
            &&& forall|i: int| 0 <= i < s.outbox.len() ==> #[trigger] s1.outbox[i] == s.outbox[i]
            &&& leave_told(s1.outbox, s.outbox.len() as int, pid)
        }),
{
    let m = cut(State { status: "player "@ + crate::text::dec(pid as nat) + " timed out"@, ..s }, pid);
    if !s.conn_of.contains_key(pid) {
        assert(m.conn_of =~= s.conn_of.remove(pid));
    }
    the_host_rules_on_the_gone(m, pid);
    let s1 = bury(s, pid);
    assert(s1 == verdict(m, pid));
    assert(s1.conn_of =~= s.conn_of.remove(pid));
    let n = m.outbox.len() as int;
    let from = choose|from: u32| #[trigger]
        is_verdict(m, s1.outbox[n], pid, from) && s1.ghosts == (if m.world.tick < from {
            m.ghosts.insert(pid, from)
        } else {
            m.ghosts
        });
    assert(s1.outbox[n] is Send);
    assert forall|i: int| 0 <= i < s.outbox.len() implies #[trigger] s1.outbox[i] == s.outbox[i] by {
        assert(m.outbox[i] == s.outbox[i]);
    }
}

proof fn burying(s: State, ps: Seq<u8>)
    requires
        s.kind == SessionKind::Host,
        forall|i: int| 0 <= i < ps.len() ==> s.roster.contains_key(#[trigger] ps[i]),
        forall|i: int, j: int| 0 <= i < j < ps.len() ==> ps[i] < ps[j],
    ensures
        buried(s, ps, bury_all(s, ps)),
    decreases ps.len(),
{
    if ps.len() > 0 {
        let head = ps.drop_last();
        let b = ps.last();
        assert forall|i: int| 0 <= i < head.len() implies s.roster.contains_key(#[trigger] head[i]) by {
            assert(head[i] == ps[i]);
        }
        assert forall|i: int, j: int| 0 <= i < j < head.len() implies head[i] < head[j] by {
            assert(ps[i] < ps[j]);
        }
        burying(s, head);
        let m = bury_all(s, head);
        assert(!head.contains(b)) by {
            if head.contains(b) {
                let i = choose|i: int| 0 <= i < head.len() && head[i] == b;
                assert(ps[i] < ps[ps.len() - 1]);
            }
        }
        assert(s.roster.contains_key(ps[ps.len() - 1]));
        assert(m.roster.contains_key(b));
        burying_one(m, b);
        let s1 = bury(m, b);
        assert forall|p: u8| ps.contains(p) <==> head.contains(p) || p == b by {
            if ps.contains(p) {
                let i = choose|i: int| 0 <= i < ps.len() && ps[i] == p;
                if i < head.len() {
                    assert(head[i] == p);
                }
            }
            if head.contains(p) {
                let i = choose|i: int| 0 <= i < head.len() && head[i] == p;
                assert(ps[i] == p);
            }
            if p == b {
                assert(ps[ps.len() - 1] == p);
            }
        }
        assert forall|p: u8| #[trigger] s1.roster.contains_key(p) implies s1.roster[p] == s.roster[p] by {
            assert(m.roster.contains_key(p));
        }
        assert forall|p: u8| #[trigger] s1.conn_of.contains_key(p) <==> s.conn_of.contains_key(p) && !ps.contains(p) by {
            assert(m.conn_of.contains_key(p) <==> s.conn_of.contains_key(p) && !head.contains(p));
        }
        assert forall|p: u8| #[trigger] s1.conn_of.contains_key(p) implies s1.conn_of[p] == s.conn_of[p] by {
            assert(m.conn_of.contains_key(p));
        }
        let n = s.outbox.len() as int;
        assert forall|i: int| 0 <= i < n implies #[trigger] s1.outbox[i] == s.outbox[i] by {
            assert(m.outbox[i] == s.outbox[i]);
        }
        assert forall|i: int| 0 <= i < ps.len() implies leave_told(s1.outbox, n, #[trigger] ps[i]) by {
            if i < head.len() {
                assert(leave_told(m.outbox, n, head[i]));
                let j = choose|j: int|
                    n <= j < m.outbox.len() && (#[trigger] m.outbox[j] matches ActionV::Send { to, seq, msg } && (
                    msg matches MsgV::Left { pid: gone, from, backfill } && gone == head[i]));
                assert(s1.outbox[j] == m.outbox[j]);
            } else {
                assert(leave_told(s1.outbox, m.outbox.len() as int, b));
                let j = choose|j: int|
                    m.outbox.len() <= j < s1.outbox.len() && (#[trigger] s1.outbox[j] matches ActionV::Send { to, seq, msg } && (
                    msg matches MsgV::Left { pid: gone, from, backfill } && gone == b));
                assert(s1.outbox[j] is Send);
            }
        }
    }
}

proof fn the_dead(s: State, ps: Seq<u8>)
    requires
        forall|i: int, j: int| 0 <= i < j < ps.len() ==> ps[i] < ps[j],
    ensures
        ({
            let d = dead_among(s, ps);
            &&& forall|i: int, j: int| 0 <= i < j < d.len() ==> d[i] < d[j]
            &&& forall|p: u8| #[trigger]
                d.contains(p) <==> ps.contains(p) && p != s.my_pid && !s.bot_q.contains_key(p) && quiet(s, p)
        }),
    decreases ps.len(),
{
    if ps.len() > 0 {
        let head = ps.drop_last();
        let b = ps.last();
        assert forall|i: int, j: int| 0 <= i < j < head.len() implies head[i] < head[j] by {
            assert(ps[i] < ps[j]);
        }
        the_dead(s, head);
        let a = dead_among(s, head);
        let d = dead_among(s, ps);
        assert forall|i: int| 0 <= i < a.len() implies #[trigger] a[i] < b by {
            assert(a.contains(a[i]));
            let j = choose|j: int| 0 <= j < head.len() && head[j] == a[i];
            assert(ps[j] < ps[ps.len() - 1]);
        }
        assert forall|p: u8| #[trigger] d.contains(p) <==> ps.contains(p) && p != s.my_pid && !s.bot_q.contains_key(p) && quiet(
            s,
            p,
        ) by {
            assert(a.contains(p) <==> head.contains(p) && p != s.my_pid && !s.bot_q.contains_key(p) && quiet(s, p));
            if d.contains(p) {
                let i = choose|i: int| 0 <= i < d.len() && d[i] == p;
                if i < a.len() {
                    assert(a[i] == p);
                    let j = choose|j: int| 0 <= j < head.len() && head[j] == p;
                    assert(ps[j] == p);
                } else {
                    assert(ps[ps.len() - 1] == p);
                }
            }
            if ps.contains(p) && p != s.my_pid && !s.bot_q.contains_key(p) && quiet(s, p) {
                let j = choose|j: int| 0 <= j < ps.len() && ps[j] == p;
                if j < head.len() {
                    assert(head[j] == p);
                    let i = choose|i: int| 0 <= i < a.len() && a[i] == p;
                    assert(d[i] == p);
                } else {
                    assert(d[d.len() - 1] == p);
                }
            }
        }
    }
}

/// A host buries exactly the players who are quiet: they are out of the roster, their links are forgotten,
/// and the mesh is told of each; nobody else is touched, and the rows stay as they are.
pub proof fn quiet_players_are_buried(s: State, p: u8)
    requires
        s.kind == SessionKind::Host,
        s.migration is None,
    ensures
        ({
            let s1 = tend(s);
            &&& s1.roster.contains_key(p) <==> s.roster.contains_key(p) && !lost(s, p)
            &&& s1.roster.contains_key(p) ==> s1.roster[p] == s.roster[p]
            &&& !lost(s, p) ==> (s1.conn_of.contains_key(p) <==> s.conn_of.contains_key(p)) && (s.conn_of.contains_key(p)
                ==> s1.conn_of[p] == s.conn_of[p])
            &&& lost(s, p) ==> !s1.conn_of.contains_key(p) && leave_told(s1.outbox, s.outbox.len() as int, p)
            &&& (forall|q: u8| !#[trigger] lost(s, q)) ==> s1 == s
            &&& s1 == (State {
                roster: s1.roster,
                ghosts: s1.ghosts,
                conn_of: s1.conn_of,
                pid_of: s1.pid_of,
                conn_key: s1.conn_key,
                outbox: s1.outbox,
                seq: s1.seq,
                status: s1.status,
                ..s
            })
        }),
{
    let ps = pids(s.roster.dom());
    pids_enumerate(s.roster.dom(), 256);
    the_dead(s, ps);
    let d = dead_among(s, ps);
    assert forall|q: u8| #[trigger] d.contains(q) <==> lost(s, q) by {
        if d.contains(q) {
            let i = choose|i: int| 0 <= i < ps.len() && ps[i] == q;
            assert(s.roster.dom().contains(ps[i]));
        }
        if s.roster.contains_key(q) {
            assert(s.roster.dom().contains(q));
            assert(ps.contains(q));
        }
    }
    assert forall|i: int| 0 <= i < d.len() implies s.roster.contains_key(#[trigger] d[i]) by {
        assert(d.contains(d[i]));
        assert(lost(s, d[i]));
    }
    burying(s, d);
    let s1 = tend(s);
    assert(s1 == bury_all(s, d));
    assert(d.contains(p) <==> lost(s, p));
    if lost(s, p) {
        let i = choose|i: int| 0 <= i < d.len() && d[i] == p;
        assert(leave_told(s1.outbox, s.outbox.len() as int, d[i]));
    }
    if forall|q: u8| !#[trigger] lost(s, q) {
        assert(d.len() == 0) by {
            if d.len() > 0 {
                assert(d.contains(d[0]));
                assert(lost(s, d[0]));
            }
        }
    }
}

/// Who leaves closes the link of every player, forgets them all, and does nothing else.
pub proof fn leaving_closes_every_link(s: State, i: int)
    ensures
        ({
            let s1 = leave(s);
            let n = s.outbox.len() as int;
            &&& s1.conn_of == Map::<u8, u64>::empty() && s1.pid_of == Map::<u64, u8>::empty() && s1.conn_key == Map::<
                u64,
                Seq<u8>,
            >::empty()
            &&& s1.outbox.len() >= n
            &&& 0 <= i < n ==> s1.outbox[i] == s.outbox[i]
            &&& n <= i < s1.outbox.len() ==> s1.outbox[i] is Close
            &&& forall|p: u8| #[trigger]
                s.conn_of.contains_key(p) ==> s1.outbox.contains(ActionV::Close { conn: s.conn_of[p] })
            &&& s1 == (State {
                outbox: s1.outbox,
                conn_of: s1.conn_of,
                pid_of: s1.pid_of,
                conn_key: s1.conn_key,
                ..s
            })
        }),
{
    broadcasts_reach_everyone(s, MsgV::Freeze { at: 0 }, None);
    let to = links(pids(s.conn_of.dom()), s.conn_of, None);
    let s1 = leave(s);
    let n = s.outbox.len() as int;
    assert forall|p: u8| #[trigger] s.conn_of.contains_key(p) implies s1.outbox.contains(
        ActionV::Close { conn: s.conn_of[p] },
    ) by {
        assert(to.contains(s.conn_of[p]));
        let k = choose|k: int| 0 <= k < to.len() && to[k] == s.conn_of[p];
        assert(s1.outbox[n + k] == (ActionV::Close { conn: s.conn_of[p] }));
    }
}

/// A host that founds no settlement drops that wish from its orders, and no other order.
pub proof fn keepers_found_nothing(s: State, before: Seq<CommandV>, join: CommandV, after: Seq<CommandV>)
    requires
        s.local_q == before.push(join) + after,
        join is Join,
        forall|i: int| 0 <= i < before.len() ==> !(#[trigger] before[i] is Join),
        forall|i: int| 0 <= i < after.len() ==> !(#[trigger] after[i] is Join),
    ensures
        skip_settle(s).local_q == before + after,
        ({
            let s1 = skip_settle(s);
            s1 == (State { local_q: s1.local_q, ..s })
        }),
{
    let f = |c: CommandV| !(c is Join);
    without_one(before, join, after, f);
    assert(skip_settle(s).local_q == s.local_q.filter(f));
}

proof fn without_one(before: Seq<CommandV>, c: CommandV, after: Seq<CommandV>, f: spec_fn(CommandV) -> bool)
    requires
        !f(c),
        forall|i: int| 0 <= i < before.len() ==> f(#[trigger] before[i]),
        forall|i: int| 0 <= i < after.len() ==> f(#[trigger] after[i]),
    ensures
        (before.push(c) + after).filter(f) == before + after,
{
    keeping(before, f);
    dropping(before, c, f);
    adding(before.push(c), after, f);
}

proof fn keeping(cs: Seq<CommandV>, f: spec_fn(CommandV) -> bool)
    requires
        forall|i: int| 0 <= i < cs.len() ==> f(#[trigger] cs[i]),
    ensures
        cs.filter(f) == cs,
    decreases cs.len(),
{
    reveal(Seq::filter);
    if cs.len() > 0 {
        let head = cs.drop_last();
        assert forall|i: int| 0 <= i < head.len() implies f(#[trigger] head[i]) by {
            assert(head[i] == cs[i]);
        }
        keeping(head, f);
        assert(f(cs[cs.len() - 1]));
        assert(head.push(cs.last()) =~= cs);
    } else {
        assert(cs.filter(f) =~= cs);
    }
}

proof fn dropping(cs: Seq<CommandV>, c: CommandV, f: spec_fn(CommandV) -> bool)
    requires
        !f(c),
    ensures
        cs.push(c).filter(f) == cs.filter(f),
{
    reveal(Seq::filter);
    assert(cs.push(c).drop_last() =~= cs);
}

proof fn adding(cs: Seq<CommandV>, more: Seq<CommandV>, f: spec_fn(CommandV) -> bool)
    requires
        forall|i: int| 0 <= i < more.len() ==> f(#[trigger] more[i]),
    ensures
        (cs + more).filter(f) == cs.filter(f) + more,
    decreases more.len(),
{
    reveal(Seq::filter);
    if more.len() > 0 {
        let head = more.drop_last();
        assert forall|i: int| 0 <= i < head.len() implies f(#[trigger] head[i]) by {
            assert(head[i] == more[i]);
        }
        adding(cs, head, f);
        assert(f(more[more.len() - 1]));
        assert((cs + more).drop_last() =~= cs + head);
        assert((cs.filter(f) + head).push(more.last()) =~= cs.filter(f) + more);
    } else {
        assert(cs + more =~= cs);
        assert(cs.filter(f) + more =~= cs.filter(f));
    }
}

} // verus!
