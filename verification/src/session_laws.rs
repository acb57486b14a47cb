//! What the calls and messages of a session are for: what each does to the rows, the roster, the
//! links and the outbox, told by the fields of the state alone.

use crate::command::CommandV;
use crate::laws::entry;
use crate::protocol::{envelope_of, envelope_valid, msg_of, sealed, EnvelopeV, MsgV, PeerInfoV};
use crate::session::{goes_out, sent_all, sent_of, Out};
use crate::state::{
    add_bot, add_bots, apply_join, base, begin_tick, bind, broadcast, claim, claim_all, driven, due,
    end_tick, ensure_sent, finish_tick, first_free, first_reclaim, first_seq, flat, frozen, give_orders,
    guest, hosting, kept, let_all_in, let_in, links, lists_host, me, meet, meet_all, my_hash, next_seq,
    no_key, on_closed, on_data, on_event, on_first, on_msg, open_timeline, pace, peers_in, pid_for, queued,
    queued_as, reclaims, sat_add, send_bot, send_bots, send_limit, send_tick, send_ticks, send_to, settle,
    slot_free, solo, tick_orders, to_dial, try_admit, welcomed, ActionV, ClaimV, KnockV, Row, SessionKind,
    State, WorldV,
};
use crate::tables::{pids, pids_enumerate};
use crate::text::dec;
use crate::transport::{SentV, TransportEv};
use vstd::prelude::*;

verus! {

// ----------------------------------------------------------------------
// Orders
// ----------------------------------------------------------------------

/// The entries of every other player and every other tick are as they were.
pub open spec fn other_entries_stay(a: State, b: State, t: u32, p: u8) -> bool {
    forall|u: u32, q: u8| u != t || q != p ==> #[trigger] entry(b, u, q) == entry(a, u, q)
}

/// The orders that the owner of a settlement signs for a tick that has not run are held as they
/// were given, all of them and in their order; no other entry changes. A client notes how far the
/// host has come.
pub proof fn orders_are_held_as_given(s: State, from_pid: u8, sender: Seq<u8>, tick: u32, pid: u8, cmds: Seq<CommandV>)
    requires
        s.roster.contains_key(pid),
        s.roster[pid].key == sender,
        s.world.tick <= tick,
    ensures
        ({
            let s1 = on_msg(s, from_pid, sender, MsgV::Cmds { tick, pid, cmds });
            &&& entry(s1, tick, pid) == Some(cmds)
            &&& other_entries_stay(s, s1, tick, pid)
            &&& from_pid == s.host_pid && s.kind == SessionKind::Client ==> s1.host_seen >= s.host_seen && (tick
                < u32::MAX ==> s1.host_seen > tick) && (s1.host_seen == s.host_seen || s1.host_seen - 1 <= tick)
            &&& from_pid != s.host_pid || s.kind != SessionKind::Client ==> s1.host_seen == s.host_seen
            &&& s1 == (State { pending: s1.pending, host_seen: s1.host_seen, ..s })
        }),
{
}

/// Orders that another key signed, or that come after their tick ran, change nothing.
pub proof fn other_orders_vanish(s: State, from_pid: u8, sender: Seq<u8>, tick: u32, pid: u8, cmds: Seq<CommandV>)
    requires
        !s.roster.contains_key(pid) || s.roster[pid].key != sender || tick < s.world.tick,
    ensures
        on_msg(s, from_pid, sender, MsgV::Cmds { tick, pid, cmds }) == s,
{
}

// ----------------------------------------------------------------------
// Telling the mesh
// ----------------------------------------------------------------------

/// Are these the links of every player with a link, but for one?
pub open spec fn reach(to: Seq<u64>, conn_of: Map<u8, u64>, except: Option<u8>) -> bool {
    &&& forall|q: u8| #[trigger] conn_of.contains_key(q) && Some(q) != except ==> to.contains(conn_of[q])
    &&& forall|i: int|
        0 <= i < to.len() ==> exists|q: u8| #[trigger]
            conn_of.contains_key(q) && Some(q) != except && conn_of[q] == #[trigger] to[i]
}

proof fn links_reach(ps: Seq<u8>, conn_of: Map<u8, u64>, except: Option<u8>)
    requires
        forall|i: int| 0 <= i < ps.len() ==> conn_of.contains_key(#[trigger] ps[i]),
    ensures
        forall|i: int|
            0 <= i < ps.len() && Some(ps[i]) != except ==> links(ps, conn_of, except).contains(conn_of[#[trigger] ps[i]]),
        forall|i: int|
            0 <= i < links(ps, conn_of, except).len() ==> exists|q: u8| #[trigger]
                conn_of.contains_key(q) && Some(q) != except && conn_of[q] == #[trigger] links(ps, conn_of, except)[i],
    decreases ps.len(),
{
    if ps.len() > 0 {
        let head = ps.drop_last();
        assert forall|i: int| 0 <= i < head.len() implies conn_of.contains_key(#[trigger] head[i]) by {
            assert(head[i] == ps[i]);
        }
        links_reach(head, conn_of, except);
        let a = links(head, conn_of, except);
        let b = links(ps, conn_of, except);
        assert(conn_of.contains_key(ps[ps.len() - 1]));
        assert forall|i: int| 0 <= i < ps.len() && Some(ps[i]) != except implies b.contains(
            conn_of[#[trigger] ps[i]],
        ) by {
            if i < ps.len() - 1 {
                assert(head[i] == ps[i]);
                let k = choose|k: int| 0 <= k < a.len() && a[k] == conn_of[ps[i]];
                assert(b[k] == conn_of[ps[i]]);
            } else {
                assert(b[b.len() - 1] == conn_of[ps[i]]);
            }
        }
        assert forall|i: int| 0 <= i < b.len() implies exists|q: u8| #[trigger]
            conn_of.contains_key(q) && Some(q) != except && conn_of[q] == #[trigger] b[i] by {
            if i < a.len() {
                assert(b[i] == a[i]);
            } else {
                assert(conn_of.contains_key(ps.last()) && conn_of[ps.last()] == b[i]);
            }
        }
    }
}

/// A message to the mesh goes to every player with a link, but for the one left out, and to nobody
/// else; nothing else is sent, and nothing else changes but the number.
pub proof fn broadcasts_reach_everyone(s: State, msg: MsgV, except: Option<u8>)
    ensures
        ({
            let s1 = broadcast(s, msg, except);
            &&& s1.outbox.len() == s.outbox.len() + 1
            &&& s1.outbox.drop_last() == s.outbox
            &&& s1.outbox.last() matches ActionV::Send { to, seq, msg: m } && reach(to, s.conn_of, except) && seq == s.seq && m
                == msg
            &&& s1 == (State { outbox: s1.outbox, seq: s1.seq, ..s })
        }),
{
    let ps = pids(s.conn_of.dom());
    pids_enumerate(s.conn_of.dom(), 256);
    assert forall|i: int| 0 <= i < ps.len() implies s.conn_of.contains_key(#[trigger] ps[i]) by {
        assert(s.conn_of.dom().contains(ps[i]));
    }
    links_reach(ps, s.conn_of, except);
    let to = links(ps, s.conn_of, except);
    assert forall|q: u8| #[trigger] s.conn_of.contains_key(q) && Some(q) != except implies to.contains(s.conn_of[q]) by {
        assert(s.conn_of.dom().contains(q));
        assert(ps.contains(q));
        let i = choose|i: int| 0 <= i < ps.len() && ps[i] == q;
        assert(Some(ps[i]) != except);
    }
    assert(broadcast(s, msg, except).outbox.drop_last() =~= s.outbox);
}

/// What a player ships is what every other peer holds: the orders that are scheduled for a tick are
/// told to the whole mesh, and a peer that hears of it in time holds the same orders for the same
/// player and tick.
pub proof fn peers_hold_what_was_shipped(a: State, t: u32, pid: u8, cs: Seq<CommandV>, b: State, from_pid: u8)
    requires
        a.kind != SessionKind::Solo,
        b.roster.contains_key(pid),
        b.roster[pid].key == a.key,
        b.world.tick <= t,
    ensures
        ({
            let a1 = give_orders(a, t, pid, cs);
            &&& entry(a1, t, pid) == Some(cs)
            &&& other_entries_stay(a, a1, t, pid)
            &&& a1.outbox.len() == a.outbox.len() + 1
            &&& a1.outbox.last() matches ActionV::Send { to, seq, msg } && reach(to, a.conn_of, None) && entry(
                on_msg(b, from_pid, a.key, msg),
                t,
                pid,
            ) == entry(a1, t, pid)
        }),
{
    let s1 = State { pending: crate::state::set_orders(a.pending, t, pid, cs), ..a };
    broadcasts_reach_everyone(s1, MsgV::Cmds { tick: t, pid, cmds: cs }, None);
    orders_are_held_as_given(b, from_pid, a.key, t, pid, cs);
}

// ----------------------------------------------------------------------
// Shipping
// ----------------------------------------------------------------------

/// May orders for the tick be sent now? Not beyond the input delay of three ticks, not at or beyond
/// the freeze point, and by a client not before the host has come there.
pub open spec fn may_send(s: State, t: u32) -> bool {
    &&& t <= s.world.tick + 3
    &&& t < u32::MAX
    &&& s.freeze_at matches Some(fa) ==> t < fa
    &&& s.kind == SessionKind::Client ==> t < s.host_seen
}

/// Do we speak for the player: ourselves, and the bots that we drive?
pub open spec fn speaks_for(s: State, p: u8) -> bool {
    p == s.my_pid || s.bot_q.contains_key(p)
}

/// What is queued for a player that we speak for.
pub open spec fn queued_for(s: State, p: u8) -> Seq<CommandV> {
    if p == s.my_pid {
        s.local_q
    } else {
        s.bot_q[p]
    }
}

/// Does the action tell the whole mesh a player's orders for a tick?
pub open spec fn tells(x: ActionV, conn_of: Map<u8, u64>, t: u32, p: u8, cs: Seq<CommandV>) -> bool {
    x matches ActionV::Send { to, seq, msg } && reach(to, conn_of, None) && msg == (MsgV::Cmds { tick: t, pid: p, cmds: cs })
}

proof fn giving(s: State, t: u32, p: u8, cs: Seq<CommandV>)
    ensures
        ({
            let s1 = give_orders(s, t, p, cs);
            &&& entry(s1, t, p) == Some(cs)
            &&& other_entries_stay(s, s1, t, p)
            &&& s1 == (State { pending: s1.pending, outbox: s1.outbox, seq: s1.seq, ..s })
            &&& s.kind == SessionKind::Solo ==> s1.outbox == s.outbox
            &&& s.kind != SessionKind::Solo ==> s1.outbox.len() == s.outbox.len() + 1 && s1.outbox.drop_last() == s.outbox
                && tells(s1.outbox.last(), s.conn_of, t, p, cs)
        }),
{
    let s1 = State { pending: crate::state::set_orders(s.pending, t, p, cs), ..s };
    broadcasts_reach_everyone(s1, MsgV::Cmds { tick: t, pid: p, cmds: cs }, None);
}

spec fn bots_shipped(s: State, t: u32, bs: Seq<u8>, s1: State) -> bool {
    let n = s.outbox.len();
    &&& s1 == (State { pending: s1.pending, outbox: s1.outbox, seq: s1.seq, bot_q: s1.bot_q, ..s })
    &&& s1.bot_q.dom() == s.bot_q.dom()
    &&& forall|p: u8| #[trigger]
        s.bot_q.contains_key(p) ==> s1.bot_q[p] == (if bs.contains(p) {
            Seq::empty()
        } else {
            s.bot_q[p]
        })
    &&& forall|u: u32, p: u8| #[trigger]
        entry(s1, u, p) == (if u == t && bs.contains(p) {
            Some(s.bot_q[p])
        } else {
            entry(s, u, p)
        })
    &&& n <= s1.outbox.len()
    &&& forall|i: int| 0 <= i < n ==> #[trigger] s1.outbox[i] == s.outbox[i]
    &&& s.kind == SessionKind::Solo ==> s1.outbox == s.outbox
    &&& s.kind != SessionKind::Solo ==> s1.outbox.len() == n + bs.len() && forall|i: int|
        n <= i < s1.outbox.len() ==> tells(#[trigger] s1.outbox[i], s.conn_of, t, bs[i - n], s.bot_q[bs[i - n]])
}

proof fn shipping_bots(s: State, t: u32, bs: Seq<u8>)
    requires
        forall|i: int| 0 <= i < bs.len() ==> s.bot_q.contains_key(#[trigger] bs[i]),
        forall|i: int, j: int| 0 <= i < j < bs.len() ==> bs[i] < bs[j],
    ensures
        bots_shipped(s, t, bs, send_bots(s, t, bs)),
    decreases bs.len(),
{
    if bs.len() > 0 {
        let rest = bs.drop_last();
        let b = bs.last();
        assert forall|i: int| 0 <= i < rest.len() implies s.bot_q.contains_key(#[trigger] rest[i]) by {
            assert(rest[i] == bs[i]);
        }
        assert forall|i: int, j: int| 0 <= i < j < rest.len() implies rest[i] < rest[j] by {
            assert(bs[i] < bs[j]);
        }
        shipping_bots(s, t, rest);
        let mid = send_bots(s, t, rest);
        assert(s.bot_q.contains_key(bs[bs.len() - 1]));
        assert(!rest.contains(b)) by {
            if rest.contains(b) {
                let i = choose|i: int| 0 <= i < rest.len() && rest[i] == b;
                assert(bs[i] < bs[bs.len() - 1]);
            }
        }
        assert(mid.bot_q[b] == s.bot_q[b]);
        let m2 = State { bot_q: mid.bot_q.insert(b, Seq::empty()), ..mid };
        giving(m2, t, b, mid.bot_q[b]);
        let s1 = send_bot(mid, t, b);
        assert(s1 == give_orders(m2, t, b, s.bot_q[b]));
        assert forall|p: u8| bs.contains(p) <==> rest.contains(p) || p == b by {
            if bs.contains(p) {
                let i = choose|i: int| 0 <= i < bs.len() && bs[i] == p;
                if i < bs.len() - 1 {
                    assert(rest[i] == p);
                }
            }
            if rest.contains(p) {
                let i = choose|i: int| 0 <= i < rest.len() && rest[i] == p;
                assert(bs[i] == p);
            }
            if p == b {
                assert(bs[bs.len() - 1] == p);
            }
        }
        assert(mid.bot_q.dom().contains(b));
        assert(s1.bot_q.dom() =~= s.bot_q.dom());
        assert forall|p: u8| #[trigger] s.bot_q.contains_key(p) implies s1.bot_q[p] == (if bs.contains(p) {
            Seq::empty()
        } else {
            s.bot_q[p]
        }) by {
            assert(mid.bot_q[p] == (if rest.contains(p) {
                Seq::empty()
            } else {
                s.bot_q[p]
            }));
        }
        assert forall|u: u32, p: u8| #[trigger]
            entry(s1, u, p) == (if u == t && bs.contains(p) {
                Some(s.bot_q[p])
            } else {
                entry(s, u, p)
            }) by {
            assert(entry(m2, u, p) == entry(mid, u, p));
            if u != t || p != b {
                assert(entry(s1, u, p) == entry(m2, u, p));
            }
        }
        let n = s.outbox.len() as int;
        assert forall|i: int| 0 <= i < n implies #[trigger] s1.outbox[i] == s.outbox[i] by {
            assert(mid.outbox[i] == s.outbox[i]);
            if s.kind != SessionKind::Solo {
                assert(s1.outbox.drop_last()[i] == s1.outbox[i]);
            }
        }
        if s.kind != SessionKind::Solo {
            assert forall|i: int| n <= i < s1.outbox.len() implies tells(
                #[trigger] s1.outbox[i],
                s.conn_of,
                t,
                bs[i - n],
                s.bot_q[bs[i - n]],
            ) by {
                if i < s1.outbox.len() - 1 {
                    assert(s1.outbox.drop_last()[i] == s1.outbox[i]);
                    assert(rest[i - n] == bs[i - n]);
                    assert(tells(mid.outbox[i], s.conn_of, t, rest[i - n], s.bot_q[rest[i - n]]));
                }
            }
        }
    } else {
        assert(s.pending == send_bots(s, t, bs).pending);
    }
}

/// What `n` ticks of shipping come to.
spec fn shipped(s: State, n: nat, s1: State) -> bool {
    let k = s.outbox.len();
    &&& s1 == (State {
        pending: s1.pending,
        outbox: s1.outbox,
        seq: s1.seq,
        local_q: s1.local_q,
        bot_q: s1.bot_q,
        next_send: s1.next_send,
        ..s
    })
    &&& s1.next_send == s.next_send + n
    &&& s1.bot_q.dom() == s.bot_q.dom()
    &&& forall|p: u8| #[trigger]
        speaks_for(s, p) ==> queued_for(s1, p) == (if n > 0 {
            Seq::empty()
        } else {
            queued_for(s, p)
        })
    &&& forall|u: u32, p: u8| #[trigger]
        entry(s1, u, p) == (if s.next_send <= u < s.next_send + n && speaks_for(s, p) {
            Some(
                if u == s.next_send {
                    queued_for(s, p)
                } else {
                    Seq::empty()
                },
            )
        } else {
            entry(s, u, p)
        })
    &&& k <= s1.outbox.len()
    &&& forall|i: int| 0 <= i < k ==> #[trigger] s1.outbox[i] == s.outbox[i]
    &&& s.kind == SessionKind::Solo ==> s1.outbox == s.outbox
    &&& s.kind != SessionKind::Solo ==> forall|u: u32, p: u8|
        s.next_send <= u < s.next_send + n && #[trigger] speaks_for(s, p) && #[trigger] entry(s1, u, p) is Some
            ==> told(s1.outbox, k as int, s.conn_of, u, p, entry(s1, u, p)->0)
    &&& forall|i: int|
        k <= i < s1.outbox.len() ==> is_shipment(s, n, s1, #[trigger] s1.outbox[i])
}

spec fn is_shipment(s: State, n: nat, s1: State, x: ActionV) -> bool {
    exists|u: u32, p: u8|
        s.next_send <= u < s.next_send + n && speaks_for(s, p) && #[trigger] tells(x, s.conn_of, u, p, entry(s1, u, p)->0)
}

/// Is a player's order for a tick told to the whole mesh, by an action from the `k`th on?
pub open spec fn told(outbox: Seq<ActionV>, k: int, conn_of: Map<u8, u64>, t: u32, p: u8, cs: Seq<CommandV>) -> bool {
    exists|i: int| k <= i < outbox.len() && tells(#[trigger] outbox[i], conn_of, t, p, cs)
}

proof fn shipping_tick(s: State)
    requires
        !s.bot_q.contains_key(s.my_pid),
        s.next_send < u32::MAX,
    ensures
        shipped(s, 1, send_tick(s)),
{
    let t = s.next_send;
    let me = s.my_pid;
    let s0 = State { local_q: Seq::empty(), ..s };
    let s1 = give_orders(s0, t, me, s.local_q);
    giving(s0, t, me, s.local_q);
    let bs = pids(s.bot_q.dom());
    pids_enumerate(s.bot_q.dom(), 256);
    assert forall|i: int| 0 <= i < bs.len() implies s1.bot_q.contains_key(#[trigger] bs[i]) by {
        assert(s.bot_q.dom().contains(bs[i]));
    }
    assert forall|p: u8| s.bot_q.contains_key(p) <==> bs.contains(p) by {
        if s.bot_q.contains_key(p) {
            assert(s.bot_q.dom().contains(p));
        }
        if bs.contains(p) {
            let i = choose|i: int| 0 <= i < bs.len() && bs[i] == p;
            assert(s1.bot_q.contains_key(bs[i]));
        }
    }
    shipping_bots(s1, t, bs);
    let s2 = send_bots(s1, t, bs);
    let s3 = send_tick(s);
    assert(s3 == (State { next_send: (t + 1) as u32, ..s2 }));
    let k = s.outbox.len() as int;
    assert forall|i: int| 0 <= i < k implies #[trigger] s3.outbox[i] == s.outbox[i] by {
        if s.kind != SessionKind::Solo {
            assert(s1.outbox.drop_last()[i] == s1.outbox[i]);
        }
        assert(s2.outbox[i] == s1.outbox[i]);
    }
    assert forall|p: u8| #[trigger] speaks_for(s, p) implies queued_for(s3, p) == Seq::<CommandV>::empty() by {
        if p != me {
            assert(s1.bot_q.contains_key(p));
        }
    }
    assert forall|u: u32, p: u8| #[trigger]
        entry(s3, u, p) == (if t <= u < t + 1 && speaks_for(s, p) {
            Some(
                if u == t {
                    queued_for(s, p)
                } else {
                    Seq::empty()
                },
            )
        } else {
            entry(s, u, p)
        }) by {
        assert(entry(s3, u, p) == entry(s2, u, p));
        assert(entry(s0, u, p) == entry(s, u, p));
        if u != t || p != me {
            assert(entry(s1, u, p) == entry(s0, u, p));
        }
    }
    if s.kind != SessionKind::Solo {
        assert(s1.outbox[k] == s1.outbox.last());
        assert(s2.outbox[k] == s1.outbox[k]);
        assert forall|u: u32, p: u8|
            t <= u < t + 1 && #[trigger] speaks_for(s, p) && #[trigger] entry(s3, u, p) is Some implies told(
            s3.outbox,
            k,
            s.conn_of,
            u,
            p,
            entry(s3, u, p)->0,
        ) by {
            if p == me {
                assert(tells(s3.outbox[k], s.conn_of, u, p, entry(s3, u, p)->0));
            } else {
                let i = choose|i: int| 0 <= i < bs.len() && bs[i] == p;
                assert(tells(s3.outbox[k + 1 + i], s.conn_of, t, bs[i], s1.bot_q[bs[i]]));
            }
        }
        assert forall|i: int| k <= i < s3.outbox.len() implies is_shipment(s, 1, s3, #[trigger] s3.outbox[i]) by {
            if i == k {
                assert(tells(s3.outbox[i], s.conn_of, t, me, entry(s3, t, me)->0));
                assert(speaks_for(s, me));
            } else {
                let p = bs[i - k - 1];
                assert(s1.bot_q.contains_key(p));
                assert(speaks_for(s, p));
                assert(tells(s2.outbox[i], s.conn_of, t, p, s1.bot_q[p]));
                assert(entry(s3, t, p) == Some(s1.bot_q[p]));
                assert(tells(s3.outbox[i], s.conn_of, t, p, entry(s3, t, p)->0));
            }
        }
    }
}

proof fn shipping_ticks(s: State, n: nat)
    requires
        !s.bot_q.contains_key(s.my_pid),
        s.next_send + n <= u32::MAX,
    ensures
        shipped(s, n, send_ticks(s, n)),
    decreases n,
{
    if n > 0 {
        shipping_tick(s);
        let m = send_tick(s);
        assert(!m.bot_q.dom().contains(s.my_pid));
        shipping_ticks(m, (n - 1) as nat);
        let s1 = send_ticks(m, (n - 1) as nat);
        assert(s1 == send_ticks(s, n));
        let t = s.next_send;
        let k = s.outbox.len() as int;
        assert forall|p: u8| speaks_for(s, p) <==> speaks_for(m, p) by {
            assert(s.bot_q.dom().contains(p) <==> m.bot_q.dom().contains(p));
        }
        assert forall|u: u32, p: u8| #[trigger]
            entry(s1, u, p) == (if t <= u < t + n && speaks_for(s, p) {
                Some(
                    if u == t {
                        queued_for(s, p)
                    } else {
                        Seq::empty()
                    },
                )
            } else {
                entry(s, u, p)
            }) by {
            assert(entry(m, u, p) == (if u == t && speaks_for(s, p) {
                Some(queued_for(s, p))
            } else {
                entry(s, u, p)
            }));
            if speaks_for(s, p) {
                assert(queued_for(m, p) == Seq::<CommandV>::empty());
            }
        }
        assert forall|i: int| 0 <= i < k implies #[trigger] s1.outbox[i] == s.outbox[i] by {
            assert(m.outbox[i] == s.outbox[i]);
        }
        if s.kind != SessionKind::Solo {
            assert forall|u: u32, p: u8|
                t <= u < t + n && #[trigger] speaks_for(s, p) && #[trigger] entry(s1, u, p) is Some implies told(
                s1.outbox,
                k,
                s.conn_of,
                u,
                p,
                entry(s1, u, p)->0,
            ) by {
                if u == t {
                    assert(entry(m, u, p) is Some);
                    assert(entry(s1, u, p) == entry(m, u, p));
                    assert(told(m.outbox, k, s.conn_of, u, p, entry(m, u, p)->0));
                    let i = choose|i: int|
                        k <= i < m.outbox.len() && tells(#[trigger] m.outbox[i], s.conn_of, u, p, entry(m, u, p)->0);
                    assert(s1.outbox[i] == m.outbox[i]);
                } else {
                    assert(speaks_for(m, p));
                    assert(told(s1.outbox, m.outbox.len() as int, s.conn_of, u, p, entry(s1, u, p)->0));
                    let i = choose|i: int|
                        m.outbox.len() <= i < s1.outbox.len() && tells(
                            #[trigger] s1.outbox[i],
                            s.conn_of,
                            u,
                            p,
                            entry(s1, u, p)->0,
                        );
                    assert(tells(s1.outbox[i], s.conn_of, u, p, entry(s1, u, p)->0));
                }
            }
        }
        assert forall|i: int| k <= i < s1.outbox.len() implies is_shipment(s, n, s1, #[trigger] s1.outbox[i]) by {
            if i < m.outbox.len() {
                assert(s1.outbox[i] == m.outbox[i]);
                assert(is_shipment(s, 1, m, m.outbox[i]));
                let (u, p) = choose|u: u32, p: u8|
                    t <= u < t + 1 && speaks_for(s, p) && #[trigger] tells(
                        m.outbox[i],
                        s.conn_of,
                        u,
                        p,
                        entry(m, u, p)->0,
                    );
                assert(entry(s1, u, p) == entry(m, u, p));
                assert(tells(s1.outbox[i], s.conn_of, u, p, entry(s1, u, p)->0));
            } else {
                assert(is_shipment(m, (n - 1) as nat, s1, s1.outbox[i]));
                let (u, p) = choose|u: u32, p: u8|
                    m.next_send <= u < m.next_send + (n - 1) && speaks_for(m, p) && #[trigger] tells(
                        s1.outbox[i],
                        m.conn_of,
                        u,
                        p,
                        entry(s1, u, p)->0,
                    );
                assert(tells(s1.outbox[i], s.conn_of, u, p, entry(s1, u, p)->0));
                assert(speaks_for(s, p));
            }
        }
    }
}

/// Shipping covers exactly the ticks that may be sent and were not sent before: for each of them
/// everyone we speak for has an entry afterwards, with all that was queued in the first of them
/// and nothing in the others; the queues are empty then, and no other entry changes.
pub proof fn shipping_covers_what_is_owed(s: State, t: u32, p: u8)
    requires
        !s.bot_q.contains_key(s.my_pid),
    ensures
        ({
            let s1 = ensure_sent(s);
            let owed = s.next_send <= t && may_send(s, t);
            &&& s1.next_send >= s.next_send
            &&& s.next_send <= t ==> (t < s1.next_send <==> may_send(s, t))
            &&& owed && speaks_for(s, p) && t == s.next_send ==> entry(s1, t, p) == Some(queued_for(s, p))
            &&& owed && speaks_for(s, p) && t != s.next_send ==> entry(s1, t, p) == Some(Seq::<CommandV>::empty())
            &&& !owed || !speaks_for(s, p) ==> entry(s1, t, p) == entry(s, t, p)
            &&& may_send(s, s.next_send) && speaks_for(s, p) ==> queued_for(s1, p) == Seq::<CommandV>::empty()
            &&& !may_send(s, s.next_send) ==> s1 == s
            &&& s1.bot_q.dom() == s.bot_q.dom()
            &&& s1 == (State {
                pending: s1.pending,
                outbox: s1.outbox,
                seq: s1.seq,
                local_q: s1.local_q,
                bot_q: s1.bot_q,
                next_send: s1.next_send,
                ..s
            })
        }),
{
    if s.next_send < send_limit(s) {
        shipping_ticks(s, (send_limit(s) - s.next_send) as nat);
        assert(entry(ensure_sent(s), t, p) == entry(send_ticks(s, (send_limit(s) - s.next_send) as nat), t, p));
    }
}

/// Everything that is shipped is told to the whole mesh as it is held, and nothing else is said; a
/// world that is offline says nothing.
pub proof fn shipping_tells_the_mesh(s: State, t: u32, p: u8, i: int)
    requires
        !s.bot_q.contains_key(s.my_pid),
    ensures
        ({
            let s1 = ensure_sent(s);
            let k = s.outbox.len() as int;
            &&& s.kind == SessionKind::Solo ==> s1.outbox == s.outbox
            &&& 0 <= i < k ==> i < s1.outbox.len() && s1.outbox[i] == s.outbox[i]
            &&& s.kind != SessionKind::Solo && s.next_send <= t && may_send(s, t) && speaks_for(s, p) ==> entry(s1, t, p) is Some
                && told(s1.outbox, k, s.conn_of, t, p, entry(s1, t, p)->0)
            &&& k <= i < s1.outbox.len() ==> exists|u: u32, q: u8|
                s.next_send <= u && may_send(s, u) && speaks_for(s, q) && #[trigger] tells(
                    s1.outbox[i],
                    s.conn_of,
                    u,
                    q,
                    entry(s1, u, q)->0,
                )
        }),
{
    shipping_covers_what_is_owed(s, t, p);
    if s.next_send < send_limit(s) {
        let n = (send_limit(s) - s.next_send) as nat;
        shipping_ticks(s, n);
        let s1 = ensure_sent(s);
        assert(s1 == send_ticks(s, n));
        let k = s.outbox.len() as int;
        if k <= i < s1.outbox.len() {
            assert(is_shipment(s, n, s1, s1.outbox[i]));
            let (u, q) = choose|u: u32, q: u8|
                s.next_send <= u < s.next_send + n && speaks_for(s, q) && #[trigger] tells(
                    s1.outbox[i],
                    s.conn_of,
                    u,
                    q,
                    entry(s1, u, q)->0,
                );
            assert(tells(s1.outbox[i], s.conn_of, u, q, entry(s1, u, q)->0));
            assert(may_send(s, u));
        }
    }
}

// ----------------------------------------------------------------------
// Ticks
// ----------------------------------------------------------------------

/// Is everyone in for a tick: each player of the roster (a newcomer from their first tick on) and
/// everyone who left with orders still to run?
pub open spec fn all_in(s: State, t: u32) -> bool {
    &&& s.pending.contains_key(t)
    &&& forall|p: u8| #[trigger]
        s.roster.contains_key(p) && (s.starts.contains_key(p) ==> s.starts[p] <= t) ==> s.pending[t].contains_key(p)
    &&& forall|p: u8| #[trigger] s.ghosts.contains_key(p) && t < s.ghosts[p] ==> s.pending[t].contains_key(p)
}

/// A tick is due exactly when a tenth of a second is banked for it, the update has not run eight
/// ticks, and everyone is in.
pub proof fn a_tick_waits_for_everyone(s: State, stepped: u32)
    ensures
        due(s, stepped) <==> s.accum >= 100_000_000 && stepped < 8 && all_in(s, s.world.tick),
{
}

/// What one player ordered, out of the orders of a tick.
pub open spec fn orders_of(os: Seq<(u8, CommandV)>, p: u8) -> Seq<CommandV>
    decreases os.len(),
{
    if os.len() == 0 {
        Seq::empty()
    } else if os.last().0 == p {
        orders_of(os.drop_last(), p).push(os.last().1)
    } else {
        orders_of(os.drop_last(), p)
    }
}

proof fn orders_of_both(a: Seq<(u8, CommandV)>, b: Seq<(u8, CommandV)>, p: u8)
    ensures
        orders_of(a + b, p) == orders_of(a, p) + orders_of(b, p),
    decreases b.len(),
{
    if b.len() == 0 {
        assert(a + b =~= a);
        assert(orders_of(a, p) + orders_of(b, p) =~= orders_of(a, p));
    } else {
        orders_of_both(a, b.drop_last(), p);
        assert((a + b).drop_last() =~= a + b.drop_last());
        assert(orders_of(a + b, p) =~= orders_of(a, p) + orders_of(b, p));
    }
}

proof fn orders_of_one(q: u8, cs: Seq<CommandV>, p: u8)
    ensures
        orders_of(Seq::new(cs.len(), |i: int| (q, cs[i])), p) == (if p == q {
            cs
        } else {
            Seq::empty()
        }),
    decreases cs.len(),
{
    let all = Seq::new(cs.len(), |i: int| (q, cs[i]));
    if cs.len() > 0 {
        let head = cs.drop_last();
        orders_of_one(q, head, p);
        assert(all.drop_last() =~= Seq::new(head.len(), |i: int| (q, head[i])));
        assert(cs =~= head.push(cs.last()));
    } else {
        assert(cs =~= Seq::empty());
    }
}

proof fn flat_gives(ps: Seq<u8>, row: Row, p: u8)
    requires
        forall|i: int, j: int| 0 <= i < j < ps.len() ==> ps[i] < ps[j],
    ensures
        orders_of(flat(ps, row), p) == (if ps.contains(p) {
            row[p]
        } else {
            Seq::empty()
        }),
    decreases ps.len(),
{
    if ps.len() > 0 {
        let head = ps.drop_last();
        let q = ps.last();
        assert forall|i: int, j: int| 0 <= i < j < head.len() implies head[i] < head[j] by {
            assert(ps[i] < ps[j]);
        }
        flat_gives(head, row, p);
        orders_of_both(flat(head, row), Seq::new(row[q].len(), |i: int| (q, row[q][i])), p);
        orders_of_one(q, row[q], p);
        if head.contains(p) {
            let i = choose|i: int| 0 <= i < head.len() && head[i] == p;
            assert(ps[i] == p);
            assert(ps[i] < ps[ps.len() - 1]);
            assert(row[p] + Seq::<CommandV>::empty() =~= row[p]);
        } else if p == q {
            assert(ps[ps.len() - 1] == p);
            assert(Seq::<CommandV>::empty() + row[p] =~= row[p]);
        } else {
            if ps.contains(p) {
                let i = choose|i: int| 0 <= i < ps.len() && ps[i] == p;
                assert(head[i] == p);
            }
            assert(Seq::<CommandV>::empty() + Seq::<CommandV>::empty() =~= Seq::<CommandV>::empty());
        }
    }
}

/// Do a player's orders for a tick count: are they in the world, or did they leave with orders
/// still to run?
pub open spec fn counts(s: State, t: u32, p: u8) -> bool {
    s.roster.contains_key(p) || (s.ghosts.contains_key(p) && t < s.ghosts[p])
}

/// A tick runs every order that is held for it, each player's in the order they were given, and
/// none of players who are gone.
pub proof fn ticks_run_what_is_held(s: State, p: u8)
    ensures
        orders_of(tick_orders(s), p) == (if counts(s, s.world.tick, p) && entry(s, s.world.tick, p) is Some {
            entry(s, s.world.tick, p)->0
        } else {
            Seq::empty()
        }),
{
    let row = kept(s, s.world.tick);
    let ps = pids(row.dom());
    pids_enumerate(row.dom(), 256);
    flat_gives(ps, row, p);
    if row.dom().contains(p) {
        assert(ps.contains(p));
    } else if ps.contains(p) {
        let i = choose|i: int| 0 <= i < ps.len() && ps[i] == p;
        assert(row.dom().contains(ps[i]));
    }
}

/// Beginning a tick takes its row out of the rows to come and puts what it runs on record; nothing
/// else changes.
pub proof fn ticks_go_on_record(s: State, t: u32, p: u8)
    ensures
        ({
            let s1 = begin_tick(s);
            let now = s.world.tick;
            &&& t != now ==> entry(s1, t, p) == entry(s, t, p)
            &&& !s1.pending.contains_key(now)
            &&& s1.history.contains_key(now)
            &&& s1.history[now].contains_key(p) <==> counts(s, now, p) && entry(s, now, p) is Some
            &&& s1.history[now].contains_key(p) ==> s1.history[now][p] == entry(s, now, p)->0
            &&& t != now ==> (s1.history.contains_key(t) <==> s.history.contains_key(t)) && s1.history[t] == s.history[t]
            &&& s1 == (State { pending: s1.pending, history: s1.history, ..s })
        }),
{
}

/// After a tick the rows to come are those from the new tick on, the record reaches 128 ticks back,
/// and those who left are forgotten once their last orders have run.
pub proof fn ticks_leave_the_rest(s: State, w: WorldV, hash: u64, t: u32, p: u8)
    ensures
        ({
            let s1 = end_tick(s, w, hash);
            &&& s1.world == w
            &&& s1.pending.contains_key(t) <==> s.pending.contains_key(t) && w.tick <= t
            &&& s1.pending.contains_key(t) ==> s1.pending[t] == s.pending[t]
            &&& s1.history.contains_key(t) <==> s.history.contains_key(t) && w.tick <= t + 128
            &&& s1.history.contains_key(t) ==> s1.history[t] == s.history[t]
            &&& s1.ghosts.contains_key(p) <==> s.ghosts.contains_key(p) && w.tick < s.ghosts[p]
            &&& s1.ghosts.contains_key(p) ==> s1.ghosts[p] == s.ghosts[p]
            &&& s1 == (State {
                world: w,
                pending: s1.pending,
                history: s1.history,
                ghosts: s1.ghosts,
                my_hashes: s1.my_hashes,
                outbox: s1.outbox,
                seq: s1.seq,
                ..s
            })
        }),
{
    broadcasts_reach_everyone(
        State { my_hashes: end_tick(s, w, hash).my_hashes, ..crate::state::retire(s, w) },
        MsgV::HashChk { tick: w.tick, hash },
        None,
    );
}

/// Every 32 ticks the new world's checksum is noted, the newest last and 64 of them at most, and
/// told to the whole mesh; on other ticks nothing is noted or said.
pub proof fn checksums_are_exchanged(s: State, w: WorldV, hash: u64)
    ensures
        ({
            let s1 = end_tick(s, w, hash);
            let h = s1.my_hashes;
            &&& w.tick % 32 == 0 ==> h.len() > 0 && h.last() == (w.tick, hash) && h.len() == (if s.my_hashes.len() < 64 {
                s.my_hashes.len() + 1
            } else {
                64
            }) && forall|i: int| 1 <= i < h.len() ==> h[h.len() - 1 - i] == #[trigger] s.my_hashes[s.my_hashes.len() - i]
            &&& w.tick % 32 == 0 && s.kind != SessionKind::Solo ==> s1.outbox.len() == s.outbox.len() + 1
                && s1.outbox.drop_last() == s.outbox && (s1.outbox.last() matches ActionV::Send { to, seq, msg } && reach(
                to,
                s.conn_of,
                None,
            ) && msg == (MsgV::HashChk { tick: w.tick, hash }))
            &&& w.tick % 32 != 0 ==> h == s.my_hashes
            &&& w.tick % 32 != 0 || s.kind == SessionKind::Solo ==> s1.outbox == s.outbox
        }),
{
    broadcasts_reach_everyone(
        State { my_hashes: end_tick(s, w, hash).my_hashes, ..crate::state::retire(s, w) },
        MsgV::HashChk { tick: w.tick, hash },
        None,
    );
}

/// A tick that ran costs a tenth of a second of the banked time, and what is owed then is shipped.
pub proof fn ticks_cost_their_time(s: State, w: WorldV, hash: u64)
    requires
        s.accum >= 100_000_000,
    ensures
        ({
            let s1 = finish_tick(s, w, hash);
            &&& s1.accum == s.accum - 100_000_000
            &&& s1 == (State { accum: s1.accum, ..ensure_sent(end_tick(s, w, hash)) })
        }),
{
    crate::session::lemma_sent_keeps(end_tick(s, w, hash));
}

/// Time is banked only while the world runs: none is kept after a desync or without a host.
pub proof fn time_is_banked(s: State, dt: u64)
    ensures
        ({
            let s1 = pace(s, dt);
            let halted = s.desync_at is Some || s.host_gone;
            &&& halted ==> s1.accum == 0
            &&& !halted && s.accum + dt <= u64::MAX ==> s1.accum == s.accum + dt
            &&& !halted && s.accum + dt > u64::MAX ==> s1.accum == u64::MAX
            &&& s1 == (State { accum: s1.accum, ..ensure_sent(s) })
        }),
{
    crate::session::lemma_sent_keeps(s);
}

/// Time that could not be used does not pile up: an update that ran eight ticks keeps none, any
/// other at most one tick's.
pub proof fn spare_time_is_dropped(s: State, stepped: u32)
    ensures
        ({
            let s1 = settle(s, stepped);
            &&& stepped >= 8 ==> s1.accum == 0
            &&& stepped < 8 && s.accum <= 100_000_000 ==> s1.accum == s.accum
            &&& stepped < 8 && s.accum > 100_000_000 ==> s1.accum == 100_000_000
            &&& s1 == (State { accum: s1.accum, ..s })
        }),
{
}

/// A checksum of the sender's own seat that differs from the earliest one we noted for that tick
/// halts the world, if nothing has halted it; any other checksum changes nothing.
pub proof fn a_differing_checksum_halts(s: State, from_pid: u8, sender: Seq<u8>, tick: u32, hash: u64, i: int)
    requires
        0 <= i <= s.my_hashes.len(),
        i < s.my_hashes.len() ==> s.my_hashes[i].0 == tick,
        forall|j: int| 0 <= j < i ==> (#[trigger] s.my_hashes[j]).0 != tick,
    ensures
        ({
            let s1 = on_msg(s, from_pid, sender, MsgV::HashChk { tick, hash });
            let differs = s.roster.contains_key(from_pid) && s.roster[from_pid].key == sender && i < s.my_hashes.len()
                && s.my_hashes[i].1 != hash && s.desync_at is None;
            &&& differs ==> s1.desync_at == Some(tick) && s1 == (State { desync_at: s1.desync_at, status: s1.status, ..s })
            &&& !differs ==> s1 == s
        }),
{
    hash_found(s.my_hashes, tick, i);
}

proof fn hash_found(h: Seq<(u32, u64)>, t: u32, i: int)
    requires
        0 <= i <= h.len(),
        i < h.len() ==> h[i].0 == t,
        forall|j: int| 0 <= j < i ==> (#[trigger] h[j]).0 != t,
    ensures
        my_hash(h, t) == (if i < h.len() {
            Some(h[i].1)
        } else {
            None
        }),
    decreases h.len(),
{
    if h.len() > 0 && i > 0 {
        let rest = h.drop_first();
        assert(h[0].0 != t);
        assert forall|j: int| 0 <= j < i - 1 implies (#[trigger] rest[j]).0 != t by {
            assert(rest[j] == h[j + 1]);
        }
        hash_found(rest, t, i - 1);
    }
}

// ----------------------------------------------------------------------
// Seats
// ----------------------------------------------------------------------

/// Is the settlement on record theirs to take back: under its name, with its key (or where it has
/// none), and not in use?
pub open spec fn theirs(w: WorldV, roster: Map<u8, PeerInfoV>, name: Seq<char>, key: Seq<u8>, i: int) -> bool {
    let p = w.players[i];
    p.joined && p.name == name && (p.key == key || p.key == Seq::new(32, |k: int| 0u8)) && !roster.contains_key(
        (i % 256) as u8,
    )
}

/// Is the seat neither in use nor on record?
pub open spec fn vacant(w: WorldV, roster: Map<u8, PeerInfoV>, i: int) -> bool {
    !roster.contains_key(i as u8) && (i < w.players.len() ==> !w.players[i].joined)
}

/// A settler gets the first settlement on record that is theirs; one who has none gets the first
/// vacant seat of the eight; nobody is turned away unless there is neither.
pub proof fn seats_are_given_by_right(w: WorldV, roster: Map<u8, PeerInfoV>, name: Seq<char>, key: Seq<u8>)
    ensures
        match pid_for(w, roster, name, key) {
            Some(p) => !roster.contains_key(p) && ((exists|k: int|
                0 <= k < w.players.len() && k % 256 == p && #[trigger] theirs(w, roster, name, key, k) && forall|j: int|
                    0 <= j < k ==> !#[trigger] theirs(w, roster, name, key, j)) || ((forall|k: int|
                0 <= k < w.players.len() ==> !#[trigger] theirs(w, roster, name, key, k)) && p < 8 && vacant(
                w,
                roster,
                p as int,
            ) && forall|j: int| 0 <= j < p ==> !#[trigger] vacant(w, roster, j))),
            None => (forall|k: int| 0 <= k < w.players.len() ==> !#[trigger] theirs(w, roster, name, key, k)) && (forall|j: int|
                0 <= j < 8 ==> !#[trigger] vacant(w, roster, j)),
        },
{
    reclaim_first(w, roster, name, key, 0);
    free_first(w, roster, 0);
    match first_reclaim(w, roster, name, key, 0) {
        Some(p) => {
            let k = choose|k: int|
                0 <= k < w.players.len() && k % 256 == p && #[trigger] theirs(w, roster, name, key, k) && forall|j: int|
                    0 <= j < k ==> !#[trigger] theirs(w, roster, name, key, j);
            assert(theirs(w, roster, name, key, k));
        },
        None => {},
    }
}

proof fn reclaim_first(w: WorldV, roster: Map<u8, PeerInfoV>, name: Seq<char>, key: Seq<u8>, i: int)
    requires
        0 <= i,
    ensures
        match first_reclaim(w, roster, name, key, i) {
            Some(p) => exists|k: int|
                i <= k < w.players.len() && k % 256 == p && #[trigger] theirs(w, roster, name, key, k) && forall|j: int|
                    i <= j < k ==> !#[trigger] theirs(w, roster, name, key, j),
            None => forall|k: int| i <= k < w.players.len() ==> !#[trigger] theirs(w, roster, name, key, k),
        },
    decreases w.players.len() - i,
{
    if i < w.players.len() {
        assert(theirs(w, roster, name, key, i) == reclaims(w, roster, name, key, i)) by {
            assert(no_key() =~= Seq::new(32, |k: int| 0u8));
        }
        if !reclaims(w, roster, name, key, i) {
            reclaim_first(w, roster, name, key, i + 1);
            if let Some(p) = first_reclaim(w, roster, name, key, i + 1) {
                let k = choose|k: int|
                    i + 1 <= k < w.players.len() && k % 256 == p && #[trigger] theirs(w, roster, name, key, k) && forall|j: int|
                        i + 1 <= j < k ==> !#[trigger] theirs(w, roster, name, key, j);
                assert(theirs(w, roster, name, key, k));
            }
        } else {
            assert(theirs(w, roster, name, key, i));
        }
    }
}

proof fn free_first(w: WorldV, roster: Map<u8, PeerInfoV>, p: int)
    requires
        0 <= p,
    ensures
        match first_free(w, roster, p) {
            Some(q) => p <= q < 8 && vacant(w, roster, q as int) && forall|j: int| p <= j < q ==> !#[trigger] vacant(w, roster, j),
            None => forall|j: int| p <= j < 8 ==> !#[trigger] vacant(w, roster, j),
        },
    decreases 8 - p,
{
    if p < 8 {
        assert(vacant(w, roster, p) == slot_free(w, roster, p));
        if !slot_free(w, roster, p) {
            free_first(w, roster, p + 1);
        }
    }
}

// ----------------------------------------------------------------------
// Beginnings
// ----------------------------------------------------------------------

/// A bot takes the first seat that is its own or vacant, under its name and the host's key, in the
/// color of its seat, with an empty queue; where there is none it stays out.
pub proof fn bots_take_seats(s: State, name: Seq<char>)
    ensures
        ({
            let s1 = add_bot(s, name);
            &&& s1 == (State { roster: s1.roster, bot_q: s1.bot_q, ..s })
            &&& match pid_for(s.world, s.roster, name, Seq::new(32, |i: int| 0u8)) {
                Some(b) => !s.roster.contains_key(b) && s1.roster == s.roster.insert(
                    b,
                    PeerInfoV { pid: b, name, color: (b % 8) as u8, addr: Seq::empty(), key: s.key, bot: true },
                ) && s1.bot_q == s.bot_q.insert(b, Seq::empty()),
                None => s1 == s,
            }
        }),
{
    seats_are_given_by_right(s.world, s.roster, name, no_key());
    assert(no_key() =~= Seq::new(32, |i: int| 0u8));
}

/// Everyone seated besides the players that were there is a bot under our key with an empty queue.
spec fn bots_added(s: State, s1: State) -> bool {
    &&& s1 == (State { roster: s1.roster, bot_q: s1.bot_q, ..s })
    &&& forall|p: u8| #[trigger] s.roster.contains_key(p) ==> s1.roster.contains_key(p) && s1.roster[p] == s.roster[p]
    &&& forall|p: u8| #[trigger]
        s1.roster.contains_key(p) && !s.roster.contains_key(p) ==> s1.roster[p].bot && s1.roster[p].key == s.key && s1.roster[p].pid == p
            && s1.roster[p].addr.len() == 0 && s1.bot_q.contains_key(p) && s1.bot_q[p] == Seq::<CommandV>::empty()
    &&& forall|p: u8| #[trigger]
        s1.bot_q.contains_key(p) ==> s.bot_q.contains_key(p) || (s1.roster.contains_key(p) && !s.roster.contains_key(p))
}

proof fn adding_bots(s: State, names: Seq<Seq<char>>)
    ensures
        bots_added(s, add_bots(s, names)),
    decreases names.len(),
{
    if names.len() > 0 {
        adding_bots(s, names.drop_last());
        let mid = add_bots(s, names.drop_last());
        bots_take_seats(mid, names.last());
        let s1 = add_bot(mid, names.last());
        assert forall|p: u8| #[trigger] s.roster.contains_key(p) implies s1.roster.contains_key(p) && s1.roster[p] == s.roster[p] by {
            assert(mid.roster.contains_key(p));
        }
        assert forall|p: u8| #[trigger] s1.roster.contains_key(p) && !s.roster.contains_key(p) implies s1.roster[p].bot
            && s1.roster[p].key == s.key && s1.roster[p].pid == p && s1.roster[p].addr.len() == 0 && s1.bot_q.contains_key(p)
            && s1.bot_q[p] == Seq::<CommandV>::empty() by {
            if mid.roster.contains_key(p) {
                assert(mid.bot_q.contains_key(p));
            }
        }
        assert forall|p: u8| #[trigger] s1.bot_q.contains_key(p) implies s.bot_q.contains_key(p) || (s1.roster.contains_key(p)
            && !s.roster.contains_key(p)) by {
            if mid.bot_q.contains_key(p) {
            } else {
                assert(s1.roster.contains_key(p));
                if s.roster.contains_key(p) {
                    assert(mid.roster.contains_key(p));
                }
            }
        }
    }
}

/// Does the state stand at a tick with an empty input window of three ticks: everyone in, and
/// nothing ordered?
pub open spec fn opened_at(s: State, tick: u32) -> bool {
    &&& forall|t: u32, p: u8| #[trigger]
        entry(s, t, p) == (if tick <= t < tick + 3 && t < u32::MAX && s.roster.contains_key(p) {
            Some(Seq::<CommandV>::empty())
        } else {
            None
        })
    &&& forall|t: u32| tick <= t < tick + 3 && t < u32::MAX ==> #[trigger] s.pending.contains_key(t)
    &&& s.next_send == (if tick + 3 <= u32::MAX {
        tick + 3
    } else {
        u32::MAX as int
    })
}

proof fn window_opens(s: State, from: u32)
    requires
        s.pending == Map::<u32, Row>::empty(),
    ensures
        opened_at(open_timeline(s, from), from),
        open_timeline(s, from).local_q == s.local_q.push(CommandV::Join { name: s.my_name, color: s.my_color, key: s.key }),
        ({
            let s1 = open_timeline(s, from);
            s1 == (State { pending: s1.pending, next_send: s1.next_send, local_q: s1.local_q, ..s })
        }),
{
}

/// A world begun alone founds the player's settlement first of all, under the name, the color and the
/// key it was begun with. The player and the bots are in the world, the bots under the player's key,
/// and it stands at its own tick with nothing ordered yet.
pub proof fn a_solo_world_is_founded(
    w: WorldV,
    secret: Seq<u8>,
    key: Seq<u8>,
    name: Seq<char>,
    color: u8,
    bots: Seq<Seq<char>>,
    seq: u64,
)
    ensures
        ({
            let s = solo(w, secret, key, name, color, bots, seq);
            &&& s.local_q == seq![CommandV::Join { name, color, key }]
            &&& s.kind == SessionKind::Solo
            &&& founded(s, w, secret, key, name, color, seq)
        }),
{
    let s0 = base(w, SessionKind::Solo, secret, key, name, color, seq);
    let pid = match pid_for(w, s0.roster, name, key) {
        Some(p) => p,
        None => 0,
    };
    let s1 = State { my_pid: pid, roster: s0.roster.insert(pid, me(pid, name, color, key)), ..s0 };
    adding_bots(s1, bots);
    let s2 = add_bots(s1, bots);
    window_opens(s2, w.tick);
    let s = solo(w, secret, key, name, color, bots, seq);
    assert(s1.roster.contains_key(pid));
    assert(s.local_q =~= seq![CommandV::Join { name, color, key }]);
    assert forall|p: u8| #[trigger] s.bot_q.contains_key(p) <==> s.roster.contains_key(p) && p != s.my_pid by {
        assert(s2.bot_q.contains_key(p) ==> !s1.roster.contains_key(p));
        assert(s1.roster.contains_key(p) <==> p == pid);
    }
    assert forall|t: u32, p: u8| #[trigger] entry(s, t, p) == entry(open_timeline(s2, w.tick), t, p) by {}
}

/// What a world begun here starts from.
pub open spec fn founded(s: State, w: WorldV, secret: Seq<u8>, key: Seq<u8>, name: Seq<char>, color: u8, seq: u64) -> bool {
    &&& s.world == w
    &&& s.secret == secret && s.key == key && s.my_name == name && s.my_color == color && s.seq == seq
    &&& match pid_for(w, Map::empty(), name, key) {
        Some(p) => s.my_pid == p,
        None => s.my_pid == 0,
    }
    &&& s.host_pid == 0
    &&& s.roster.contains_key(s.my_pid)
    &&& s.roster[s.my_pid] == (PeerInfoV { pid: s.my_pid, name, color, addr: Seq::empty(), key, bot: false })
    &&& forall|p: u8| #[trigger]
        s.roster.contains_key(p) && p != s.my_pid ==> s.roster[p].bot && s.roster[p].key == key && s.roster[p].pid == p
    &&& forall|p: u8| #[trigger] s.bot_q.contains_key(p) <==> s.roster.contains_key(p) && p != s.my_pid
    &&& forall|p: u8| #[trigger] s.bot_q.contains_key(p) ==> s.bot_q[p] == Seq::<CommandV>::empty()
    &&& opened_at(s, w.tick)
    &&& nothing_happened(s)
}

/// Nobody is linked, nothing runs, and nothing went out.
pub open spec fn nothing_happened(s: State) -> bool {
    &&& s.desync_at is None && s.freeze_at is None && s.migration is None && !s.host_gone && s.need is Nothing
    &&& s.accum == 0 && s.host_seen == 0 && s.now == 0
    &&& s.history == Map::<u32, Row>::empty()
    &&& s.ghosts == Map::<u8, u32>::empty() && s.starts == Map::<u8, u32>::empty()
    &&& s.conn_of == Map::<u8, u64>::empty() && s.pid_of == Map::<u64, u8>::empty()
    &&& s.conn_key == Map::<u64, Seq<u8>>::empty() && s.peer_seq == Map::<Seq<u8>, u64>::empty()
    &&& s.last_heard == Map::<u8, u64>::empty()
    &&& s.pending_dials.len() == 0 && s.lobby.len() == 0 && s.outbox.len() == 0 && s.my_hashes.len() == 0
}

/// A hosted world is founded just as one alone is, but it lets others in.
pub proof fn a_hosted_world_is_founded(
    w: WorldV,
    secret: Seq<u8>,
    key: Seq<u8>,
    name: Seq<char>,
    color: u8,
    bots: Seq<Seq<char>>,
    seq: u64,
    status: Seq<char>,
)
    ensures
        ({
            let s = hosting(w, secret, key, name, color, bots, seq, status);
            &&& s.local_q == seq![CommandV::Join { name, color, key }]
            &&& s.kind == SessionKind::Host
            &&& s.status == status
            &&& founded(s, w, secret, key, name, color, seq)
        }),
{
    a_solo_world_is_founded(w, secret, key, name, color, bots, seq);
    let a = solo(w, secret, key, name, color, bots, seq);
    let s = hosting(w, secret, key, name, color, bots, seq, status);
    assert forall|t: u32, p: u8| #[trigger] entry(s, t, p) == entry(a, t, p) by {}
}

/// Every bot that there is a seat for gets in: after a bot was added to a world with a vacant seat
/// there is one player more, and the new one has the bot's name.
pub proof fn bots_are_let_in(s: State, name: Seq<char>, j: int)
    requires
        0 <= j < 8,
        vacant(s.world, s.roster, j),
    ensures
        exists|b: u8| #[trigger]
            add_bot(s, name).roster.contains_key(b) && !s.roster.contains_key(b) && add_bot(s, name).roster[b].name == name,
{
    bots_take_seats(s, name);
    let zero = Seq::new(32, |i: int| 0u8);
    seats_are_given_by_right(s.world, s.roster, name, zero);
    let b = pid_for(s.world, s.roster, name, zero)->0;
    assert(add_bot(s, name).roster.contains_key(b));
}

/// Must a peer of the list be dialled? Neither the host, who is linked already, nor we, nor bots.
pub open spec fn is_met(p: PeerInfoV, my_pid: u8) -> bool {
    p.pid != 0 && p.pid != my_pid && p.addr.len() > 0
}

/// What meeting the peers of a list does to the roster.
spec fn met(s: State, peers: Seq<PeerInfoV>, s1: State) -> bool {
    &&& s1 == (State {
        roster: s1.roster,
        pid_of: s1.pid_of,
        conn_of: s1.conn_of,
        conn_key: s1.conn_key,
        last_heard: s1.last_heard,
        outbox: s1.outbox,
        seq: s1.seq,
        status: s1.status,
        ..s
    })
    &&& forall|p: u8| #[trigger] s1.roster.contains_key(p) <==> s.roster.contains_key(p) || listed(peers, p)
    &&& forall|i: int| 0 <= i < peers.len() && last_of(peers, i) ==> s1.roster[(#[trigger] peers[i]).pid] == peers[i]
    &&& forall|p: u8| !#[trigger] listed(peers, p) && s.roster.contains_key(p) ==> s1.roster[p] == s.roster[p]
}

/// Is the player in the list?
pub open spec fn listed(peers: Seq<PeerInfoV>, p: u8) -> bool {
    exists|i: int| 0 <= i < peers.len() && (#[trigger] peers[i]).pid == p
}

/// What meeting the peers of a list does to the links.
spec fn linked(s: State, peers: Seq<PeerInfoV>, dialled: Seq<Option<u64>>, s1: State) -> bool {
    &&& forall|i: int|
        0 <= i < peers.len() && last_of(peers, i) && is_met(#[trigger] peers[i], s.my_pid) && dialled[i] is Some
            ==> s1.conn_of.contains_key(peers[i].pid) && s1.conn_of[peers[i].pid] == dialled[i]->0
    &&& s.conn_of.contains_key(0) ==> s1.conn_of.contains_key(0) && s1.conn_of[0] == s.conn_of[0]
    &&& s.outbox.len() <= s1.outbox.len()
    &&& forall|i: int|
        0 <= i < peers.len() && is_met(#[trigger] peers[i], s.my_pid) && dialled[i] is Some ==> introduces(
            s1.outbox,
            s.outbox.len() as int,
            dialled[i]->0,
            s.my_pid,
        )
}

/// Is the entry the last of its player in the list?
pub open spec fn last_of(peers: Seq<PeerInfoV>, i: int) -> bool {
    forall|j: int| i < j < peers.len() ==> (#[trigger] peers[j]).pid != peers[i].pid
}

/// Does an action from the `k`th on introduce us on the link?
pub open spec fn introduces(outbox: Seq<ActionV>, k: int, conn: u64, my_pid: u8) -> bool {
    exists|j: int|
        k <= j < outbox.len() && (#[trigger] outbox[j] matches ActionV::Send { to, seq, msg } && to == seq![conn] && msg == (
        MsgV::Dial { pid: my_pid }))
}

proof fn last_in_head(peers: Seq<PeerInfoV>, i: int)
    requires
        0 <= i < peers.len() - 1,
        last_of(peers, i),
    ensures
        last_of(peers.drop_last(), i),
        peers.drop_last()[i] == peers[i],
        peers.last().pid != peers[i].pid,
{
    let head = peers.drop_last();
    assert(peers[peers.len() - 1].pid != peers[i].pid);
    assert forall|j: int| i < j < head.len() implies (#[trigger] head[j]).pid != head[i].pid by {
        assert(peers[j].pid != peers[i].pid);
    }
}

proof fn listed_more(peers: Seq<PeerInfoV>, p: u8)
    requires
        peers.len() > 0,
    ensures
        listed(peers, p) <==> listed(peers.drop_last(), p) || peers.last().pid == p,
{
    let head = peers.drop_last();
    if listed(peers, p) {
        let i = choose|i: int| 0 <= i < peers.len() && (#[trigger] peers[i]).pid == p;
        if i < head.len() {
            assert(head[i].pid == p);
        }
    }
    if listed(head, p) {
        let i = choose|i: int| 0 <= i < head.len() && (#[trigger] head[i]).pid == p;
        assert(peers[i].pid == p);
    }
    if peers.last().pid == p {
        assert(peers[peers.len() - 1].pid == p);
    }
}

proof fn meeting(s: State, peers: Seq<PeerInfoV>, dialled: Seq<Option<u64>>)
    requires
        peers.len() <= dialled.len(),
    ensures
        met(s, peers, meet_all(s, peers, dialled)),
    decreases peers.len(),
{
    if peers.len() > 0 {
        let head = peers.drop_last();
        let n = peers.len() - 1;
        meeting(s, head, dialled);
        let m = meet_all(s, head, dialled);
        let s1 = meet_all(s, peers, dialled);
        assert(s1 == meet(m, peers.last(), dialled[n]));
        assert(s1.roster == m.roster.insert(peers.last().pid, peers.last()));
        assert forall|q: u8| #[trigger] s1.roster.contains_key(q) <==> s.roster.contains_key(q) || listed(peers, q) by {
            listed_more(peers, q);
        }
        assert forall|i: int| 0 <= i < peers.len() && last_of(peers, i) implies s1.roster[(#[trigger] peers[i]).pid] == peers[i] by {
            if i < n {
                last_in_head(peers, i);
            }
        }
        assert forall|q: u8| !#[trigger] listed(peers, q) && s.roster.contains_key(q) implies s1.roster[q] == s.roster[q] by {
            listed_more(peers, q);
        }
    }
}

proof fn linking(s: State, peers: Seq<PeerInfoV>, dialled: Seq<Option<u64>>)
    requires
        peers.len() <= dialled.len(),
    ensures
        linked(s, peers, dialled, meet_all(s, peers, dialled)),
        meet_all(s, peers, dialled).my_pid == s.my_pid,
    decreases peers.len(),
{
    if peers.len() > 0 {
        let head = peers.drop_last();
        let p = peers.last();
        let n = peers.len() - 1;
        linking(s, head, dialled);
        let m = meet_all(s, head, dialled);
        let s1 = meet_all(s, peers, dialled);
        assert(s1 == meet(m, p, dialled[n]));
        assert(s1.outbox == m.outbox || (is_met(p, s.my_pid) && dialled[n] is Some && s1.outbox == m.outbox.push(
            ActionV::Send { to: seq![dialled[n]->0], seq: m.seq, msg: MsgV::Dial { pid: s.my_pid } },
        )));
        assert(s1.conn_of == m.conn_of || (is_met(p, s.my_pid) && dialled[n] is Some && s1.conn_of == m.conn_of.insert(
            p.pid,
            dialled[n]->0,
        )));
        assert forall|i: int|
            0 <= i < peers.len() && last_of(peers, i) && is_met(#[trigger] peers[i], s.my_pid) && dialled[i] is Some implies s1.conn_of.contains_key(
            peers[i].pid,
        ) && s1.conn_of[peers[i].pid] == dialled[i]->0 by {
            if i < n {
                last_in_head(peers, i);
            }
        }
        let k = s.outbox.len() as int;
        assert forall|i: int|
            0 <= i < peers.len() && is_met(#[trigger] peers[i], s.my_pid) && dialled[i] is Some implies introduces(
            s1.outbox,
            k,
            dialled[i]->0,
            s.my_pid,
        ) by {
            if i < n {
                assert(head[i] == peers[i]);
                assert(introduces(m.outbox, k, dialled[i]->0, s.my_pid));
                let j = choose|j: int|
                    k <= j < m.outbox.len() && (#[trigger] m.outbox[j] matches ActionV::Send { to, seq, msg } && to == seq![
                        dialled[i]->0,
                    ] && msg == (MsgV::Dial { pid: s.my_pid }));
                assert(s1.outbox[j] == m.outbox[j]);
            } else {
                assert(s1.outbox[s1.outbox.len() - 1] == s1.outbox.last());
            }
        }
    }
}

/// A player who is let in asks to settle first of all, under the name, the color and the key they came
/// with. They take over the world, the seat and the roster they were told, stand at the tick they
/// were told with an empty input window, trust the host's link to the host's key, and introduce
/// themselves to every peer that could be dialled.
pub proof fn a_guest_settles(
    w: WorldV,
    secret: Seq<u8>,
    key: Seq<u8>,
    name: Seq<char>,
    color: u8,
    seq: u64,
    now: u64,
    host_conn: u64,
    host_key: Seq<u8>,
    host_seq: u64,
    pid: u8,
    start_tick: u32,
    peers: Seq<PeerInfoV>,
    dialled: Seq<Option<u64>>,
    i: int,
)
    requires
        peers.len() <= dialled.len(),
    ensures
        ({
            let s = welcomed(w, secret, key, name, color, seq, now, host_conn, host_key, host_seq, pid, start_tick, peers, dialled);
            &&& s.local_q == seq![CommandV::Join { name, color, key }]
            &&& s.kind == SessionKind::Client
            &&& s.world == w && s.my_pid == pid && s.host_pid == 0 && s.now == now
            &&& s.secret == secret && s.key == key && s.my_name == name && s.my_color == color
            &&& forall|p: u8| #[trigger] s.roster.contains_key(p) <==> p == pid || listed(peers, p)
            &&& 0 <= i < peers.len() && last_of(peers, i) ==> s.roster[peers[i].pid] == peers[i]
            &&& !listed(peers, pid) ==> s.roster[pid] == (PeerInfoV {
                pid,
                name,
                color,
                addr: Seq::empty(),
                key,
                bot: false,
            })
            &&& opened_at(s, start_tick)
            &&& s.host_seen == s.next_send
            &&& s.conn_of.contains_key(0) && s.conn_of[0] == host_conn
            &&& s.peer_seq == Map::<Seq<u8>, u64>::empty().insert(host_key, host_seq)
            &&& 0 <= i < peers.len() && is_met(peers[i], pid) && dialled[i] is Some ==> introduces(
                s.outbox,
                0,
                dialled[i]->0,
                pid,
            )
            &&& 0 <= i < peers.len() && is_met(peers[i], pid) && dialled[i] is Some && last_of(peers, i) ==> s.conn_of.contains_key(
                peers[i].pid,
            ) && s.conn_of[peers[i].pid] == dialled[i]->0
            &&& s.desync_at is None && s.freeze_at is None && s.migration is None && !s.host_gone && s.need is Nothing
            &&& s.bot_q == Map::<u8, Seq<CommandV>>::empty() && s.ghosts == Map::<u8, u32>::empty() && s.starts == Map::<
                u8,
                u32,
            >::empty()
        }),
{
    let s0 = base(w, SessionKind::Client, secret, key, name, color, seq);
    let s1 = State {
        now,
        my_pid: pid,
        roster: s0.roster.insert(pid, me(pid, name, color, key)),
        conn_key: s0.conn_key.insert(host_conn, host_key),
        peer_seq: s0.peer_seq.insert(host_key, host_seq),
        ..s0
    };
    let b = bind(s1, host_conn, 0);
    meeting(b, peers, dialled);
    linking(b, peers, dialled);
    let s2 = meet_all(b, peers, dialled);
    window_opens(s2, start_tick);
    let s = welcomed(w, secret, key, name, color, seq, now, host_conn, host_key, host_seq, pid, start_tick, peers, dialled);
    assert(s.local_q =~= seq![CommandV::Join { name, color, key }]);
    assert(b.roster.contains_key(pid));
    assert forall|t: u32, p: u8| #[trigger] entry(s, t, p) == entry(open_timeline(s2, start_tick), t, p) by {}
}

/// A Welcome counts only if the first host entry of its list carries the key that signed it.
pub proof fn the_host_vouches_for_itself(peers: Seq<PeerInfoV>, key: Seq<u8>, i: int)
    requires
        0 <= i <= peers.len(),
        i < peers.len() ==> peers[i].pid == 0,
        forall|j: int| 0 <= j < i ==> (#[trigger] peers[j]).pid != 0,
    ensures
        lists_host(peers, key) <==> i < peers.len() && peers[i].key == key,
    decreases peers.len(),
{
    if peers.len() > 0 && i > 0 {
        let rest = peers.drop_first();
        assert(peers[0].pid != 0);
        assert forall|j: int| 0 <= j < i - 1 implies (#[trigger] rest[j]).pid != 0 by {
            assert(rest[j] == peers[j + 1]);
        }
        the_host_vouches_for_itself(rest, key, i - 1);
    }
}

// ----------------------------------------------------------------------
// What arrives
// ----------------------------------------------------------------------

/// May the envelope be heard on the link: signed by its sender, with a number above all that were
/// heard of them, on a link that nobody else has spoken on?
pub open spec fn heard(s: State, conn: u64, e: EnvelopeV) -> bool {
    &&& envelope_valid(e)
    &&& s.peer_seq.contains_key(e.sender) ==> s.peer_seq[e.sender] < e.seq
    &&& s.conn_key.contains_key(conn) ==> s.conn_key[conn] == e.sender
}

/// A frame counts only if it is heard. Then its number is used up and its link belongs to its sender;
/// what it says is taken as said by the player on that link, who is known to be alive, or on a link
/// that no player has yet as a first word.
pub proof fn frames_are_heard_or_dropped(s: State, conn: u64, bytes: Seq<u8>)
    ensures
        ({
            let s1 = on_data(s, conn, bytes);
            match envelope_of(bytes) {
                None => s1 == s,
                Some(e) => {
                    let a = State {
                        conn_key: s.conn_key.insert(conn, e.sender),
                        peer_seq: s.peer_seq.insert(e.sender, e.seq),
                        ..s
                    };
                    let b = State { last_heard: s.last_heard.insert(s.pid_of[conn], s.now), ..a };
                    &&& !heard(s, conn, e) ==> s1 == s
                    &&& heard(s, conn, e) && msg_of(e.payload) is None ==> s1 == a
                    &&& heard(s, conn, e) && msg_of(e.payload) is Some && s.pid_of.contains_key(conn) ==> s1 == on_msg(
                        b,
                        s.pid_of[conn],
                        e.sender,
                        msg_of(e.payload)->0,
                    )
                    &&& heard(s, conn, e) && msg_of(e.payload) is Some && !s.pid_of.contains_key(conn) ==> s1 == on_first(
                        a,
                        conn,
                        e.sender,
                        msg_of(e.payload)->0,
                    )
                },
            }
        }),
{
}

/// Does the host's key speak?
pub open spec fn host_speaks(s: State, sender: Seq<u8>) -> bool {
    if s.roster.contains_key(s.host_pid) {
        sender == s.roster[s.host_pid].key
    } else {
        sender == Seq::new(32, |i: int| 0u8)
    }
}

/// Who freezes the world, lets someone in or rules that someone left is the host; from anybody else
/// such words change nothing. A freeze stops the world at the tick it names.
pub proof fn the_host_alone_rules(s: State, from_pid: u8, sender: Seq<u8>, m: MsgV)
    ensures
        !host_speaks(s, sender) && (m is Freeze || m is PeerJoined || m is Left) ==> on_msg(s, from_pid, sender, m) == s,
        m matches MsgV::Freeze { at } ==> host_speaks(s, sender) ==> ({
            let s1 = on_msg(s, from_pid, sender, m);
            s1.freeze_at == Some(at) && s1 == (State { freeze_at: s1.freeze_at, status: s1.status, ..s })
        }),
        m matches MsgV::PeerJoined { info, start_tick } ==> host_speaks(s, sender) ==> on_msg(s, from_pid, sender, m)
            == apply_join(s, info, start_tick),
        m is Hello || m is Welcome || m is Dial ==> on_msg(s, from_pid, sender, m) == s,
        m is Deny ==> ({
            let s1 = on_msg(s, from_pid, sender, m);
            s1 == (State { status: s1.status, ..s })
        }),
{
    assert(no_key() =~= Seq::new(32, |i: int| 0u8));
}

/// A frozen world stops: nobody's orders are shipped for the tick it stops at, so that the tick cannot
/// run while anyone in the roster has no orders for it.
pub proof fn frozen_worlds_stop(s: State, fa: u32, p: u8)
    requires
        s.freeze_at == Some(fa),
        !s.bot_q.contains_key(s.my_pid),
        s.next_send <= fa,
        s.roster.contains_key(p),
        s.starts.contains_key(p) ==> s.starts[p] <= fa,
        entry(s, fa, p) is None,
    ensures
        !all_in(ensure_sent(s), fa),
        ensure_sent(s).next_send <= fa,
{
    shipping_covers_what_is_owed(s, fa, p);
    assert(entry(ensure_sent(s), fa, p) is None);
    assert(ensure_sent(s).roster.contains_key(p));
}

// ----------------------------------------------------------------------
// Joining
// ----------------------------------------------------------------------

/// One message more to go out, on one link, and nothing else.
pub open spec fn answered(s: State, s1: State, conn: u64, msg: MsgV) -> bool {
    &&& s1.outbox.len() == s.outbox.len() + 1
    &&& s1.outbox.drop_last() == s.outbox
    &&& s1.outbox.last() matches ActionV::Send { to, seq, msg: m } && to == seq![conn] && seq == s.seq && m == msg
    &&& s1 == (State { outbox: s1.outbox, seq: s1.seq, ..s })
}

/// A settler who knocks at the host waits in the lobby with all they said; the first of them has the
/// world freeze in twelve ticks, and the whole mesh told. Whoever is not the host, or finds the key in
/// the world already, says so to the settler and does nothing else.
pub proof fn knocks_are_answered(s: State, conn: u64, sender: Seq<u8>, name: Seq<char>, color: u8, listen_port: u16)
    ensures
        ({
            let s1 = on_first(s, conn, sender, MsgV::Hello { name, color, listen_port });
            let inside = exists|p: u8| #[trigger] s.roster.contains_key(p) && s.roster[p].key == sender;
            let at = if s.world.tick + 12 <= u32::MAX {
                (s.world.tick + 12) as u32
            } else {
                u32::MAX
            };
            &&& s.kind != SessionKind::Host ==> answered(s, s1, conn, MsgV::Deny { reason: "not the host"@ })
            &&& s.kind == SessionKind::Host && inside ==> answered(
                s,
                s1,
                conn,
                MsgV::Deny { reason: "this key is already in the world"@ },
            )
            &&& s.kind == SessionKind::Host && !inside ==> s1.lobby == s.lobby.push(
                KnockV { conn, key: sender, name, color, listen_port },
            ) && s1 == (State {
                lobby: s1.lobby,
                freeze_at: s1.freeze_at,
                outbox: s1.outbox,
                seq: s1.seq,
                status: s1.status,
                ..s
            }) && (s.freeze_at is Some ==> s1.freeze_at == s.freeze_at && s1.outbox == s.outbox) && (s.freeze_at is None
                ==> s1.freeze_at == Some(at) && s1.outbox.len() == s.outbox.len() + 1 && s1.outbox.drop_last() == s.outbox && (
            s1.outbox.last() matches ActionV::Send { to, seq, msg } && reach(to, s.conn_of, None) && msg == (MsgV::Freeze {
                at,
            })))
        }),
{
    let at = sat_add(s.world.tick, 12);
    let k = KnockV { conn, key: sender, name, color, listen_port };
    broadcasts_reach_everyone(State { freeze_at: Some(at), lobby: s.lobby.push(k), ..s }, MsgV::Freeze { at }, None);
    assert(send_to(s, conn, MsgV::Deny { reason: "not the host"@ }).outbox.drop_last() =~= s.outbox);
    assert(send_to(s, conn, MsgV::Deny { reason: "this key is already in the world"@ }).outbox.drop_last() =~= s.outbox);
}

/// A peer that introduces itself gets its link if its key owns the seat; with another key the link is
/// closed, and for a seat that nobody holds yet the claim waits. Other first words change nothing.
pub proof fn links_belong_to_their_key(s: State, conn: u64, sender: Seq<u8>, m: MsgV)
    ensures
        ({
            let s1 = on_first(s, conn, sender, m);
            &&& m matches MsgV::Dial { pid } ==> {
                let seated = s.roster.contains_key(pid);
                let right = seated && s.roster[pid].key == sender;
                &&& right ==> s1 == (State {
                    pid_of: s.pid_of.insert(conn, pid),
                    conn_of: s.conn_of.insert(pid, conn),
                    last_heard: s.last_heard.insert(pid, s.now),
                    ..s
                })
                &&& seated && !right ==> s1 == (State { outbox: s.outbox.push(ActionV::Close { conn }), ..s })
                &&& !seated ==> s1 == (State { pending_dials: s.pending_dials.push(ClaimV { conn, key: sender, pid }), ..s })
            }
            &&& !(m is Dial) && !(m is Hello) ==> s1 == s
        }),
{
}

/// When a settler is in, everyone holds an empty input window of three ticks for everyone, nobody
/// ships orders for those ticks, the settler's orders are waited for from the first tick on, and the
/// world goes on.
pub proof fn joins_open_a_window(s: State, info: PeerInfoV, start_tick: u32, t: u32, p: u8)
    ensures
        ({
            let s1 = apply_join(s, info, start_tick);
            let inside = start_tick <= t < start_tick + 3 && t < u32::MAX;
            &&& s1.roster == s.roster.insert(info.pid, info)
            &&& inside && s1.roster.contains_key(p) ==> entry(s1, t, p) == Some(Seq::<CommandV>::empty())
            &&& !inside || !s1.roster.contains_key(p) ==> entry(s1, t, p) == entry(s, t, p)
            &&& s1.next_send >= s.next_send && s1.host_seen >= s.host_seen
            &&& inside ==> s1.next_send > t && s1.host_seen > t
            &&& s1.next_send == s.next_send || s1.next_send <= start_tick + 3
            &&& s1.host_seen == s.host_seen || s1.host_seen <= start_tick + 3
            &&& s1.starts == s.starts.insert(info.pid, start_tick)
            &&& s1.freeze_at is None
            &&& s1 == (State {
                roster: s1.roster,
                pending: s1.pending,
                next_send: s1.next_send,
                host_seen: s1.host_seen,
                starts: s1.starts,
                freeze_at: None,
                status: s1.status,
                pending_dials: s1.pending_dials,
                pid_of: s1.pid_of,
                conn_of: s1.conn_of,
                last_heard: s1.last_heard,
                outbox: s1.outbox,
                ..s
            })
        }),
{
    let s0 = State { roster: s.roster.insert(info.pid, info), pending_dials: Seq::empty(), ..s };
    claims_keep(s0, s.pending_dials);
    let s2 = claim_all(s0, s.pending_dials);
    assert(s2.pending == s.pending);
}

proof fn claims_keep(s: State, cs: Seq<ClaimV>)
    ensures
        ({
            let s1 = claim_all(s, cs);
            s1 == (State {
                pid_of: s1.pid_of,
                conn_of: s1.conn_of,
                last_heard: s1.last_heard,
                outbox: s1.outbox,
                pending_dials: s1.pending_dials,
                ..s
            })
        }),
    decreases cs.len(),
{
    if cs.len() > 0 {
        claims_keep(s, cs.drop_last());
    }
}

/// A claim that waited for a seat is honored once its owner has joined.
pub proof fn waiting_claims_are_honored(s: State, info: PeerInfoV, start_tick: u32, c: ClaimV)
    requires
        s.pending_dials == seq![c],
        c.pid == info.pid,
    ensures
        ({
            let s1 = apply_join(s, info, start_tick);
            &&& s1.pending_dials.len() == 0
            &&& c.key == info.key ==> s1.conn_of == s.conn_of.insert(c.pid, c.conn) && s1.pid_of == s.pid_of.insert(c.conn, c.pid)
                && s1.outbox == s.outbox
            &&& c.key != info.key ==> s1.conn_of == s.conn_of && s1.pid_of == s.pid_of && s1.outbox == s.outbox.push(
                ActionV::Close { conn: c.conn },
            )
        }),
{
    let s0 = State { roster: s.roster.insert(info.pid, info), pending_dials: Seq::empty(), ..s };
    assert(s.pending_dials.drop_last() =~= Seq::empty());
    assert(claim_all(s0, s.pending_dials.drop_last()) == s0);
    assert(claim_all(s0, s.pending_dials) == claim(s0, c));
}

/// Claims to seats that are still empty go on waiting, in their order.
pub proof fn other_claims_wait(s: State, info: PeerInfoV, start_tick: u32)
    requires
        forall|i: int| 0 <= i < s.pending_dials.len() ==> (#[trigger] s.pending_dials[i]).pid != info.pid
            && !s.roster.contains_key(s.pending_dials[i].pid),
    ensures
        apply_join(s, info, start_tick).pending_dials == s.pending_dials,
        apply_join(s, info, start_tick).conn_of == s.conn_of,
        apply_join(s, info, start_tick).pid_of == s.pid_of,
        apply_join(s, info, start_tick).outbox == s.outbox,
{
    let s0 = State { roster: s.roster.insert(info.pid, info), pending_dials: Seq::empty(), ..s };
    claims_wait(s0, s.pending_dials);
    assert(Seq::<ClaimV>::empty() + s.pending_dials =~= s.pending_dials);
}

proof fn claims_wait(s: State, cs: Seq<ClaimV>)
    requires
        forall|i: int| 0 <= i < cs.len() ==> !s.roster.contains_key((#[trigger] cs[i]).pid),
    ensures
        claim_all(s, cs) == (State { pending_dials: s.pending_dials + cs, ..s }),
    decreases cs.len(),
{
    if cs.len() > 0 {
        let head = cs.drop_last();
        assert forall|i: int| 0 <= i < head.len() implies !s.roster.contains_key((#[trigger] head[i]).pid) by {
            assert(head[i] == cs[i]);
        }
        claims_wait(s, head);
        assert(!s.roster.contains_key(cs[cs.len() - 1].pid));
        assert((s.pending_dials + head).push(cs.last()) =~= s.pending_dials + cs);
    } else {
        assert(s.pending_dials + cs =~= s.pending_dials);
    }
}

/// Are these the entries of the roster, each once, by seat?
pub open spec fn roll_call(peers: Seq<PeerInfoV>, roster: Map<u8, PeerInfoV>) -> bool {
    exists|ps: Seq<u8>| #[trigger] ps.len() == peers.len() && (forall|i: int, j: int| 0 <= i < j < ps.len() ==> ps[i] < ps[j]) && (
    forall|p: u8| #[trigger] roster.contains_key(p) <==> ps.contains(p)) && (forall|i: int|
        0 <= i < ps.len() ==> peers[i] == roster[#[trigger] ps[i]])
}

proof fn calling(roster: Map<u8, PeerInfoV>)
    ensures
        roll_call(peers_in(pids(roster.dom()), roster), roster),
{
    let ps = pids(roster.dom());
    pids_enumerate(roster.dom(), 256);
    let peers = peers_in(ps, roster);
    assert(ps.len() == peers.len());
    assert forall|p: u8| #[trigger] roster.contains_key(p) <==> ps.contains(p) by {
        if roster.contains_key(p) {
            assert(roster.dom().contains(p));
        }
        if ps.contains(p) {
            let i = choose|i: int| 0 <= i < ps.len() && ps[i] == p;
            assert(roster.dom().contains(ps[i]));
        }
    }
    assert(forall|i: int, j: int| 0 <= i < j < ps.len() ==> ps[i] < ps[j]);
}

/// A settler from the lobby who has a seat is told it, with the tick the world goes on at, everyone who
/// is in the world, and the world's bytes; everybody else is told of the settler, and both go on from
/// the same entry of the roster. Where there is no seat the settler is told so.
pub proof fn settlers_are_let_in(s: State, at: u32, snapshot: Seq<u8>, k: KnockV, ip: Seq<char>)
    ensures
        ({
            let s1 = let_in(s, at, snapshot, k, ip);
            let n = s.outbox.len() as int;
            match pid_for(s.world, s.roster, k.name, k.key) {
                None => answered(s, s1, k.conn, MsgV::Deny { reason: "world is full"@ }),
                Some(pid) => {
                    let info = PeerInfoV {
                        pid,
                        name: k.name,
                        color: k.color,
                        addr: ip + ":"@ + dec(k.listen_port as nat),
                        key: k.key,
                        bot: false,
                    };
                    let linked = s.conn_of.insert(pid, k.conn);
                    &&& s1.outbox.len() >= n + 2
                    &&& forall|i: int| 0 <= i < n ==> #[trigger] s1.outbox[i] == s.outbox[i]
                    &&& s1.outbox[n] matches ActionV::Send { to, seq, msg } && to == seq![k.conn] && (msg matches MsgV::Welcome {
                        pid: seat,
                        start_tick,
                        peers,
                        snapshot: bytes,
                    } && seat == pid && start_tick == at && bytes == snapshot && roll_call(peers, s.roster))
                    &&& s1.outbox[n + 1] matches ActionV::Send { to, seq, msg } && reach(to, linked, Some(pid)) && msg == (
                    MsgV::PeerJoined { info, start_tick: at })
                    &&& s1.roster == s.roster.insert(pid, info)
                    &&& s1.starts == s.starts.insert(pid, at)
                    &&& s1.lobby == s.lobby && s1.freeze_at is None && s1.world == s.world
                    &&& s.pending_dials.len() == 0 ==> s1.conn_of == linked && s1.pid_of == s.pid_of.insert(k.conn, pid)
                        && s1.last_heard == s.last_heard.insert(pid, s.now) && s1.outbox.len() == n + 2
                },
            }
        }),
{
    match pid_for(s.world, s.roster, k.name, k.key) {
        None => {
            assert(let_in(s, at, snapshot, k, ip).outbox.drop_last() =~= s.outbox);
        },
        Some(pid) => {
            let info = guest(k, pid, ip);
            let peers = peers_in(pids(s.roster.dom()), s.roster);
            calling(s.roster);
            let a = send_to(s, k.conn, MsgV::Welcome { pid, start_tick: at, peers, snapshot });
            let b = bind(a, k.conn, pid);
            let c = broadcast(b, MsgV::PeerJoined { info, start_tick: at }, Some(pid));
            broadcasts_reach_everyone(b, MsgV::PeerJoined { info, start_tick: at }, Some(pid));
            let d = apply_join(c, info, at);
            joins_open_a_window(c, info, at, at, pid);
            claims_append(
                State { roster: c.roster.insert(info.pid, info), pending_dials: Seq::empty(), ..c },
                c.pending_dials,
            );
            let n = s.outbox.len() as int;
            assert(b.outbox[n] == a.outbox.last());
            assert forall|i: int| 0 <= i < n + 2 implies #[trigger] d.outbox[i] == c.outbox[i] by {}
            assert forall|i: int| 0 <= i < n + 1 implies #[trigger] c.outbox[i] == b.outbox[i] by {
                assert(c.outbox.drop_last()[i] == b.outbox[i]);
            }
            assert(c.outbox[n + 1] == c.outbox.last());
        },
    }
}

proof fn claims_append(s: State, cs: Seq<ClaimV>)
    ensures
        claim_all(s, cs).outbox.len() >= s.outbox.len(),
        forall|i: int| 0 <= i < s.outbox.len() ==> #[trigger] claim_all(s, cs).outbox[i] == s.outbox[i],
    decreases cs.len(),
{
    if cs.len() > 0 {
        claims_append(s, cs.drop_last());
    }
}

/// Is the settler on the link answered, by an action from the `k`th on?
pub open spec fn hears_back(outbox: Seq<ActionV>, k: int, conn: u64) -> bool {
    exists|i: int|
        k <= i < outbox.len() && (#[trigger] outbox[i] matches ActionV::Send { to, seq, msg } && to == seq![conn] && (
        msg is Welcome || msg is Deny))
}

proof fn letting_in(s: State, at: u32, snapshot: Seq<u8>, ks: Seq<KnockV>, ips: Seq<Seq<char>>)
    ensures
        ({
            let s1 = let_all_in(s, at, snapshot, ks, ips);
            &&& s1.lobby == s.lobby
            &&& s1.outbox.len() >= s.outbox.len()
            &&& forall|i: int| 0 <= i < ks.len() ==> hears_back(s1.outbox, s.outbox.len() as int, (#[trigger] ks[i]).conn)
        }),
    decreases ks.len(),
{
    if ks.len() > 0 {
        let head = ks.drop_last();
        letting_in(s, at, snapshot, head, ips);
        let m = let_all_in(s, at, snapshot, head, ips);
        let k = ks.last();
        settlers_are_let_in(m, at, snapshot, k, ips[ks.len() - 1]);
        let s1 = let_in(m, at, snapshot, k, ips[ks.len() - 1]);
        let n = s.outbox.len() as int;
        assert forall|i: int| 0 <= i < m.outbox.len() implies #[trigger] s1.outbox[i] == m.outbox[i] by {
            if pid_for(m.world, m.roster, k.name, k.key) is None {
                assert(s1.outbox.drop_last()[i] == m.outbox[i]);
            }
        }
        assert forall|i: int| 0 <= i < ks.len() implies hears_back(s1.outbox, n, (#[trigger] ks[i]).conn) by {
            if i < head.len() {
                assert(head[i] == ks[i]);
                assert(hears_back(m.outbox, n, head[i].conn));
                let j = choose|j: int|
                    n <= j < m.outbox.len() && (#[trigger] m.outbox[j] matches ActionV::Send { to, seq, msg } && to == seq![
                        head[i].conn,
                    ] && (msg is Welcome || msg is Deny));
                assert(s1.outbox[j] == m.outbox[j]);
            } else {
                let j = m.outbox.len() as int;
                if pid_for(m.world, m.roster, k.name, k.key) is None {
                    assert(s1.outbox[j] == s1.outbox.last());
                }
                assert(s1.outbox[j] matches ActionV::Send { to, seq, msg } && to == seq![k.conn]);
            }
        }
    }
}

/// At the freeze point, and not before, everyone in the lobby is answered, and the lobby is empty.
pub proof fn the_lobby_is_answered(s: State, snapshot: Seq<u8>, ips: Seq<Seq<char>>, i: int)
    ensures
        ({
            let s1 = try_admit(s, snapshot, ips);
            let reached = s.freeze_at is Some && s.freeze_at->0 <= s.world.tick;
            &&& !reached ==> s1 == s
            &&& reached ==> s1.lobby.len() == 0
            &&& reached && 0 <= i < s.lobby.len() ==> hears_back(s1.outbox, s.outbox.len() as int, s.lobby[i].conn)
        }),
{
    if frozen(s) {
        letting_in(State { lobby: Seq::empty(), ..s }, s.freeze_at->0, snapshot, s.lobby, ips);
    }
}

/// The first in the lobby is let in at the tick the world froze at, and so is everyone after them, in
/// the order in which they knocked.
pub proof fn the_lobby_is_let_in_by_turns(s: State, fa: u32, snapshot: Seq<u8>, ips: Seq<Seq<char>>, n: int)
    requires
        s.freeze_at == Some(fa),
        fa <= s.world.tick,
        ips.len() == s.lobby.len(),
        0 <= n < s.lobby.len(),
    ensures
        s.lobby.len() == 1 ==> try_admit(s, snapshot, ips) == let_in(
            State { lobby: Seq::empty(), ..s },
            fa,
            snapshot,
            s.lobby[0],
            ips[0],
        ),
        let_all_in(State { lobby: Seq::empty(), ..s }, fa, snapshot, s.lobby.take(n + 1), ips) == let_in(
            let_all_in(State { lobby: Seq::empty(), ..s }, fa, snapshot, s.lobby.take(n), ips),
            fa,
            snapshot,
            s.lobby[n],
            ips[n],
        ),
        try_admit(s, snapshot, ips) == let_all_in(State { lobby: Seq::empty(), ..s }, fa, snapshot, s.lobby, ips),
{
    let e = State { lobby: Seq::empty(), ..s };
    assert(s.lobby.take(n + 1).drop_last() =~= s.lobby.take(n));
    if s.lobby.len() == 1 {
        assert(s.lobby.drop_last() =~= Seq::empty());
        assert(let_all_in(e, fa, snapshot, s.lobby.drop_last(), ips) == e);
    }
}

// ----------------------------------------------------------------------
// Orders on their way
// ----------------------------------------------------------------------

/// An order waits behind the orders that were given before it, and once the next tick is sent it runs in it,
/// after them; the same holds of a bot's orders.
pub proof fn orders_wait_in_line(s: State, c: CommandV, b: u8)
    requires
        !s.bot_q.contains_key(s.my_pid),
        b != s.my_pid,
        may_send(s, s.next_send),
    ensures
        entry(ensure_sent(queued(s, c)), s.next_send, s.my_pid) == Some(s.local_q.push(c)),
        s.bot_q.contains_key(b) ==> entry(ensure_sent(queued_as(s, b, c)), s.next_send, b) == Some(s.bot_q[b].push(c)),
        !s.bot_q.contains_key(b) ==> entry(ensure_sent(queued_as(s, b, c)), s.next_send, b) == Some(seq![c]),
        queued(s, c) == (State { local_q: queued(s, c).local_q, ..s }),
        queued_as(s, b, c) == (State { bot_q: queued_as(s, b, c).bot_q, ..s }),
{
    shipping_covers_what_is_owed(queued(s, c), s.next_send, s.my_pid);
    shipping_covers_what_is_owed(queued_as(s, b, c), s.next_send, b);
}

/// The bots we drive are those that have a queue here, each once; a client drives none.
pub proof fn hosts_drive_their_bots(s: State, p: u8)
    ensures
        driven(s).contains(p) <==> s.kind != SessionKind::Client && s.bot_q.contains_key(p),
        driven(s).no_duplicates(),
{
    let ps = pids(s.bot_q.dom());
    pids_enumerate(s.bot_q.dom(), 256);
    if s.bot_q.dom().contains(p) {
        assert(ps.contains(p));
    } else if ps.contains(p) {
        let i = choose|i: int| 0 <= i < ps.len() && ps[i] == p;
        assert(s.bot_q.dom().contains(ps[i]));
    }
    assert forall|i: int, j: int| 0 <= i < ps.len() && 0 <= j < ps.len() && i != j implies ps[i] != ps[j] by {
        if i < j {
            assert(ps[i] < ps[j]);
        } else {
            assert(ps[j] < ps[i]);
        }
    }
}

/// What the transport reports is taken as what it is: data is heard on its link, a link that closed is forgotten,
/// and one that opened changes nothing yet.
pub proof fn reports_are_taken(s: State, ev: TransportEv)
    ensures
        ev is Connected ==> on_event(s, ev) == s,
        ev matches TransportEv::Data { conn, bytes } ==> on_event(s, ev) == on_data(s, conn, bytes@),
        ev matches TransportEv::Closed { conn } ==> on_event(s, ev) == on_closed(s, conn) && !on_event(
            s,
            ev,
        ).pid_of.contains_key(conn) && !on_event(s, ev).conn_key.contains_key(conn),
{
    if let TransportEv::Closed { conn } = ev {
        forgotten(s, conn);
    }
}

proof fn forgotten(s: State, conn: u64)
    ensures
        !on_closed(s, conn).pid_of.contains_key(conn),
        !on_closed(s, conn).conn_key.contains_key(conn),
{
}

/// An action goes out as what it is: a message sealed once, on each of its links and no other; a close as a close.
pub proof fn actions_go_out(secret: Seq<u8>, key: Seq<u8>, a: ActionV, out: Out)
    requires
        goes_out(secret, key, a, out),
    ensures
        a matches ActionV::Close { conn } ==> sent_of(out) == seq![SentV::Close { conn }],
        a matches ActionV::Send { to, seq, msg } ==> (out matches Out::Frame { to: on, bytes } ==> sealed(
            secret,
            key,
            seq,
            msg,
            Some(bytes),
        ) && sent_of(out).len() == to.len() && forall|k: int|
            0 <= k < to.len() ==> #[trigger] sent_of(out)[k] == (SentV::Frame { conn: to[k], bytes: bytes@ })),
        a matches ActionV::Send { to, seq, msg } ==> (!(out is Frame) ==> sent_of(out).len() == 0 && sealed(
            secret,
            key,
            seq,
            msg,
            None,
        )),
{
}

/// Actions go out one after the other, in their order.
pub proof fn actions_go_out_in_order(a: Seq<Out>, b: Seq<Out>, x: Out)
    ensures
        sent_all(a + b) == sent_all(a) + sent_all(b),
        sent_all(seq![x]) == sent_of(x),
        sent_all(Seq::empty()).len() == 0,
    decreases b.len(),
{
    assert(seq![x].drop_last() =~= Seq::empty());
    assert(sent_all(seq![x].drop_last()) =~= Seq::<SentV>::empty());
    assert(sent_all(seq![x]) =~= sent_of(x));
    if b.len() == 0 {
        assert(a + b =~= a);
        assert(sent_all(a) + sent_all(b) =~= sent_all(a));
    } else {
        actions_go_out_in_order(a, b.drop_last(), x);
        assert((a + b).drop_last() =~= a + b.drop_last());
        assert(sent_all(a + b) =~= sent_all(a) + sent_all(b));
    }
}

/// No peer of the list after the `i`th was dialled on the link.
pub open spec fn last_on(peers: Seq<PeerInfoV>, dialled: Seq<Option<u64>>, my_pid: u8, conn: u64, i: int) -> bool {
    forall|j: int| i < j < peers.len() && is_met(#[trigger] peers[j], my_pid) ==> dialled[j] != Some(conn)
}

proof fn trusting(s: State, peers: Seq<PeerInfoV>, dialled: Seq<Option<u64>>, conn: u64, i: int)
    requires
        peers.len() <= dialled.len(),
        -1 <= i < peers.len(),
        i >= 0 ==> is_met(peers[i], s.my_pid) && dialled[i] == Some(conn),
        last_on(peers, dialled, s.my_pid, conn, i),
    ensures
        ({
            let s1 = meet_all(s, peers, dialled);
            &&& s1.my_pid == s.my_pid && s1.now == s.now
            &&& i >= 0 ==> s1.conn_key.contains_key(conn) && s1.conn_key[conn] == peers[i].key && s1.pid_of.contains_key(conn)
                && s1.pid_of[conn] == peers[i].pid && s1.last_heard.contains_key(peers[i].pid) && s1.last_heard[peers[i].pid]
                == s.now
            &&& i < 0 ==> (s1.conn_key.contains_key(conn) <==> s.conn_key.contains_key(conn)) && s1.conn_key[conn]
                == s.conn_key[conn] && (s1.pid_of.contains_key(conn) <==> s.pid_of.contains_key(conn)) && s1.pid_of[conn]
                == s.pid_of[conn]
        }),
    decreases peers.len(),
{
    if peers.len() > 0 {
        let head = peers.drop_last();
        let n = peers.len() - 1;
        let m = meet_all(s, head, dialled);
        let s1 = meet_all(s, peers, dialled);
        assert(s1 == meet(m, peers.last(), dialled[n]));
        if i < n {
            assert(is_met(peers[n], s.my_pid) ==> dialled[n] != Some(conn));
            assert forall|j: int| i < j < head.len() && is_met(#[trigger] head[j], s.my_pid) implies dialled[j] != Some(conn) by {
                assert(head[j] == peers[j]);
            }
            if i >= 0 {
                assert(head[i] == peers[i]);
            }
            trusting(s, head, dialled, conn, i);
        } else {
            clock_stays(s, head, dialled);
        }
    }
}

proof fn clock_stays(s: State, peers: Seq<PeerInfoV>, dialled: Seq<Option<u64>>)
    ensures
        meet_all(s, peers, dialled).my_pid == s.my_pid,
        meet_all(s, peers, dialled).now == s.now,
    decreases peers.len(),
{
    if peers.len() > 0 {
        clock_stays(s, peers.drop_last(), dialled);
    }
}

/// A guest trusts a link to one key alone: the host's link to the key that signed the Welcome, and a peer's link to
/// the key that the Welcome gives for the peer; what comes on it counts as that player's.
pub proof fn guests_trust_links_to_their_key(
    w: WorldV,
    secret: Seq<u8>,
    key: Seq<u8>,
    name: Seq<char>,
    color: u8,
    seq: u64,
    now: u64,
    host_conn: u64,
    host_key: Seq<u8>,
    host_seq: u64,
    pid: u8,
    start_tick: u32,
    peers: Seq<PeerInfoV>,
    dialled: Seq<Option<u64>>,
    conn: u64,
    i: int,
)
    requires
        peers.len() <= dialled.len(),
        -1 <= i < peers.len(),
        i >= 0 ==> is_met(peers[i], pid) && dialled[i] == Some(conn),
        i < 0 ==> conn == host_conn,
        last_on(peers, dialled, pid, conn, i),
    ensures
        ({
            let s = welcomed(w, secret, key, name, color, seq, now, host_conn, host_key, host_seq, pid, start_tick, peers, dialled);
            &&& s.conn_key.contains_key(conn) && s.pid_of.contains_key(conn)
            &&& i >= 0 ==> s.conn_key[conn] == peers[i].key && s.pid_of[conn] == peers[i].pid && s.last_heard[peers[i].pid] == now
            &&& i < 0 ==> s.conn_key[conn] == host_key && s.pid_of[conn] == 0
        }),
{
    let s0 = base(w, SessionKind::Client, secret, key, name, color, seq);
    let s1 = State {
        now,
        my_pid: pid,
        roster: s0.roster.insert(pid, me(pid, name, color, key)),
        conn_key: s0.conn_key.insert(host_conn, host_key),
        peer_seq: s0.peer_seq.insert(host_key, host_seq),
        ..s0
    };
    let b = bind(s1, host_conn, 0);
    trusting(b, peers, dialled, conn, i);
}

/// Those are dialled whom the guest is to meet.
pub proof fn guests_dial_whom_they_meet(p: PeerInfoV, my_pid: u8)
    ensures
        to_dial(p, my_pid) == is_met(p, my_pid),
{
}

/// The numbers of a session that began a millisecond later begin at least 1024 above those of the earlier one, and
/// each message takes the next number.
pub proof fn later_sessions_outrank_earlier_ones(a: u64, b: u64)
    requires
        a < b,
        b < 0x40_0000_0000_0000,
    ensures
        first_seq(a) + 1024 <= first_seq(b),
        next_seq(first_seq(a)) == first_seq(a) + 1,
{
}

/// Letting a settler in opens the same window as hearing of it: empty orders of everyone for three ticks.
pub proof fn letting_in_opens_a_window(s: State, at: u32, snapshot: Seq<u8>, k: KnockV, ip: Seq<char>, t: u32, p: u8)
    requires
        pid_for(s.world, s.roster, k.name, k.key) is Some,
    ensures
        ({
            let s1 = let_in(s, at, snapshot, k, ip);
            let inside = at <= t < at + 3 && t < u32::MAX;
            &&& inside && s1.roster.contains_key(p) ==> entry(s1, t, p) == Some(Seq::<CommandV>::empty())
            &&& !inside || !s1.roster.contains_key(p) ==> entry(s1, t, p) == entry(s, t, p)
            &&& inside ==> s1.next_send > t
            &&& s1.next_send == s.next_send || (s1.next_send >= s.next_send && s1.next_send <= at + 3)
            &&& s1.kind == s.kind && s1.local_q == s.local_q && s1.bot_q == s.bot_q && s1.ghosts == s.ghosts && s1.host_pid
                == s.host_pid && s1.my_hashes == s.my_hashes && s1.desync_at == s.desync_at && s1.accum == s.accum
        }),
{
    let pid = pid_for(s.world, s.roster, k.name, k.key)->0;
    let info = guest(k, pid, ip);
    let peers = peers_in(pids(s.roster.dom()), s.roster);
    let a = send_to(s, k.conn, MsgV::Welcome { pid, start_tick: at, peers, snapshot });
    let b = bind(a, k.conn, pid);
    let c = broadcast(b, MsgV::PeerJoined { info, start_tick: at }, Some(pid));
    joins_open_a_window(c, info, at, t, p);
    assert(entry(c, t, p) == entry(s, t, p));
}

} // verus!
