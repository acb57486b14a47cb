//! The wire vocabulary of a session.
//!
//! Framing: every message is a four-byte little-endian length and a payload, and the payload
//! is always a signed `Envelope`: no peer speaks unsigned.

use crate::command::{
    commands_view, de_commands, orders_fit, orders_read_back, put_orders, ser_commands, take_orders, Command, CommandV,
};
use crate::crypto::{joined, parts_of, signature_by, signature_valid, tagged_hash, tagged_of, verify, Identity, PubKey};
use crate::ser::{
    concat_assoc, le, le_mod, le_reads_back, le_value, pow256_values, put_all, put_blob, put_bool, put_text, take_all,
    take_blob, take_bool, take_le, take_put_all, take_put_blob, take_put_bool, take_put_le, take_put_raw, take_put_text,
    take_put_u8, take_raw, take_tagged, take_text, take_u8, took_view, DResult, DecodeErr, R, W,
};
use vstd::prelude::*;
use vstd::utf8::encode_utf8;

verus! {

pub const HOST_PID: u8 = 0;

/// The largest frame a peer accepts; snapshots fit comfortably.
pub const MAX_FRAME: usize = 33_554_432;

/// Domain tag of frame signatures: another tag invalidates all old frames.
pub const MSG_TAG: &'static str = "ironvein/msg/v1";

// ----------------------------------------------------------------------
// Peers
// ----------------------------------------------------------------------

#[derive(Clone, Debug)]
pub struct PeerInfo {
    pub pid: u8,
    pub name: String,
    pub color: u8,
    /// "ip:port" or hex pubkey another peer can dial; empty for bots and for the host's own
    /// entry.
    pub addr: String,
    /// The key whose signature authorizes this pid's commands. Bots carry the driving host's
    /// key: their commands are the host's.
    pub key: PubKey,
    /// AI player driven by whoever currently hosts; never a candidate to become host.
    pub bot: bool,
}

/// A peer by its contents.
#[verifier::ext_equal]
pub struct PeerInfoV {
    pub pid: u8,
    pub name: Seq<char>,
    pub color: u8,
    pub addr: Seq<char>,
    pub key: Seq<u8>,
    pub bot: bool,
}

impl View for PeerInfo {
    type V = PeerInfoV;

    open spec fn view(&self) -> PeerInfoV {
        PeerInfoV {
            pid: self.pid,
            name: self.name@,
            color: self.color,
            addr: self.addr@,
            key: self.key@,
            bot: self.bot,
        }
    }
}

pub open spec fn put_peer(p: PeerInfoV) -> Seq<u8> {
    seq![p.pid] + (put_text(p.name) + (seq![p.color] + (put_text(p.addr) + (p.key + put_bool(p.bot)))))
}

pub open spec fn take_peer(s: Seq<u8>) -> Option<(PeerInfoV, Seq<u8>)> {
    match take_u8(s) {
        Some((pid, s1)) => match take_text(s1) {
            Some((name, s2)) => match take_u8(s2) {
                Some((color, s3)) => match take_text(s3) {
                    Some((addr, s4)) => match take_raw(s4, 32) {
                        Some((key, s5)) => match take_bool(s5) {
                            Some((bot, s6)) => Some((PeerInfoV { pid, name, color, addr, key, bot }, s6)),
                            None => None,
                        },
                        None => None,
                    },
                    None => None,
                },
                None => None,
            },
            None => None,
        },
        None => None,
    }
}

pub open spec fn peers_view(ps: Seq<PeerInfo>) -> Seq<PeerInfoV> {
    Seq::new(ps.len(), |i: int| ps[i]@)
}

impl PeerInfo {
    /// A copy with the same contents.
    pub fn dup(&self) -> (r: PeerInfo)
        ensures
            r@ == self@,
    {
        PeerInfo {
            pid: self.pid,
            name: self.name.clone(),
            color: self.color,
            addr: self.addr.clone(),
            key: self.key,
            bot: self.bot,
        }
    }

    fn ser(&self, w: &mut W)
        ensures
            final(w)@ == old(w)@ + put_peer(self@),
    {
        w.u8(self.pid);
        w.str(self.name.as_str());
        w.u8(self.color);
        w.str(self.addr.as_str());
        w.arr32(&self.key);
        w.bool(self.bot);
        proof {
            assert(w@ =~= old(w)@ + put_peer(self@));
        }
    }

    fn de(r: &mut R) -> (res: DResult<PeerInfo>)
        requires
            old(r).wf(),
        ensures
            final(r).wf(),
            took_view(res, take_peer(old(r)@), final(r)@),
    {
        let pid: u8 = r.u8()?;
        let name: String = r.str()?;
        let color: u8 = r.u8()?;
        let addr: String = r.str()?;
        let key: PubKey = r.arr32()?;
        let bot: bool = r.bool()?;
        Ok(PeerInfo { pid, name, color, addr, key, bot })
    }
}

fn ser_peers(peers: &Vec<PeerInfo>, w: &mut W)
    ensures
        final(w)@ == old(w)@ + (le(peers@.len(), 1) + put_all(peers_view(peers@), |p: PeerInfoV| put_peer(p))),
{
    let ghost put = |p: PeerInfoV| put_peer(p);
    let ghost all = peers_view(peers@);
    let n: usize = peers.len();
    w.u8((n % 0x100) as u8);
    proof {
        le_mod(n as nat, 1);
        reveal_with_fuel(le, 2);
        assert(le(n as nat, 1) =~= seq![(n % 0x100) as u8]);
    }
    let ghost base = w@;
    let mut i: usize = 0;
    proof {
        assert(all.skip(0) =~= all);
    }
    while i < peers.len()
        invariant
            i <= peers@.len(),
            all == peers_view(peers@),
            put == (|p: PeerInfoV| put_peer(p)),
            w@ + put_all(all.skip(i as int), put) == base + put_all(all, put),
        decreases peers@.len() - i,
    {
        let ghost before = w@;
        peers[i].ser(w);
        proof {
            let rest = all.skip(i as int);
            assert(rest.drop_first() =~= all.skip(i + 1));
            assert(rest[0] == peers@[i as int]@);
            concat_assoc(before, put_peer(rest[0]), put_all(all.skip(i + 1), put));
        }
        i = i + 1;
    }
    proof {
        assert(w@ + put_all(all.skip(i as int), put) =~= w@);
        concat_assoc(old(w)@, le(n as nat, 1), put_all(all, put));
    }
}

pub open spec fn take_peers(s: Seq<u8>) -> Option<(Seq<PeerInfoV>, Seq<u8>)> {
    match take_u8(s) {
        Some((n, s1)) => take_all(s1, n as nat, |b: Seq<u8>| take_peer(b)),
        None => None,
    }
}

fn de_peers(r: &mut R) -> (res: DResult<Vec<PeerInfo>>)
    requires
        old(r).wf(),
    ensures
        final(r).wf(),
        match take_peers(old(r)@) {
            Some((ps, tail)) => res is Ok && peers_view(res->Ok_0@) == ps && final(r)@ == tail,
            None => res is Err,
        },
{
    let ghost take = |b: Seq<u8>| take_peer(b);
    let n: u8 = r.u8()?;
    let ghost start = r@;
    let mut out: Vec<PeerInfo> = Vec::new();
    let mut k: u8 = 0;
    proof {
        match take_all(start, n as nat, take) {
            Some((xs, rest)) => {
                assert(peers_view(out@) + xs =~= xs);
            },
            None => {},
        }
    }
    while k < n
        invariant
            k <= n,
            r.wf(),
            take == (|b: Seq<u8>| take_peer(b)),
            take_peers(old(r)@) == take_all(start, n as nat, take),
            take_all(start, n as nat, take) == (match take_all(r@, (n - k) as nat, take) {
                Some((xs, rest)) => Some((peers_view(out@) + xs, rest)),
                None => None,
            }),
        decreases n - k,
    {
        let ghost before = r@;
        let ghost got = out@;
        let p: PeerInfo = match PeerInfo::de(r) {
            Ok(p) => p,
            Err(x) => {
                return Err(x);
            },
        };
        out.push(p);
        proof {
            assert(peers_view(out@) =~= peers_view(got).push(p@));
            assert(take(before) == Some((p@, r@)));
            match take_all(r@, (n - k - 1) as nat, take) {
                Some((xs, rest)) => {
                    assert(peers_view(got) + (seq![p@] + xs) =~= peers_view(out@) + xs);
                },
                None => {},
            }
        }
        k = k + 1;
    }
    proof {
        assert(peers_view(out@) + Seq::<PeerInfoV>::empty() =~= peers_view(out@));
    }
    Ok(out)
}

// ----------------------------------------------------------------------
// Messages
// ----------------------------------------------------------------------

#[allow(inconsistent_fields)]
#[derive(Clone, Debug)]
pub enum Msg {
    /// joiner -> host: knock knock.
    Hello { name: String, color: u8, listen_port: u16 },
    /// host -> joiner: your pid, the frozen world, and everyone to dial.
    Welcome { pid: u8, start_tick: u32, peers: Vec<PeerInfo>, snapshot: Vec<u8> },
    /// host -> joiner: no room / name trouble.
    Deny { reason: String },
    /// host -> all: stop sending commands for ticks >= at (a snapshot is coming).
    Freeze { at: u32 },
    /// host -> old peers: a settler arrived; require their commands from start_tick on.
    PeerJoined { info: PeerInfo, start_tick: u32 },
    /// mesh handshake: identifies an inbound connection.
    Dial { pid: u8 },
    /// the heartbeat of lockstep: player `pid`'s commands for `tick`.
    Cmds { tick: u32, pid: u8, cmds: Vec<Command> },
    /// periodic state checksum for desync detection.
    HashChk { tick: u32, hash: u64 },
    /// host -> all: `pid` left. Empty-fill their commands from `from`; use `backfill` verbatim
    /// for earlier unexecuted ticks (the host's view is canon).
    Left { pid: u8, from: u32, backfill: Vec<(u32, Vec<Command>)> },
    /// host migration, new host -> all survivors: the elected successor declares its own
    /// frozen world canonical and ships it, exactly like a join `Welcome`.
    MigrateResume { old: u8, resume_tick: u32, bots: Vec<u8>, snapshot: Vec<u8> },
}

/// A message by its contents.
#[allow(inconsistent_fields)]
#[verifier::ext_equal]
pub enum MsgV {
    Hello { name: Seq<char>, color: u8, listen_port: u16 },
    Welcome { pid: u8, start_tick: u32, peers: Seq<PeerInfoV>, snapshot: Seq<u8> },
    Deny { reason: Seq<char> },
    Freeze { at: u32 },
    PeerJoined { info: PeerInfoV, start_tick: u32 },
    Dial { pid: u8 },
    Cmds { tick: u32, pid: u8, cmds: Seq<CommandV> },
    HashChk { tick: u32, hash: u64 },
    Left { pid: u8, from: u32, backfill: Seq<(u32, Seq<CommandV>)> },
    MigrateResume { old: u8, resume_tick: u32, bots: Seq<u8>, snapshot: Seq<u8> },
}

pub open spec fn backfill_view(b: Seq<(u32, Vec<Command>)>) -> Seq<(u32, Seq<CommandV>)> {
    Seq::new(b.len(), |i: int| (b[i].0, commands_view(b[i].1@)))
}

impl View for Msg {
    type V = MsgV;

    open spec fn view(&self) -> MsgV {
        match *self {
            Msg::Hello { name, color, listen_port } => MsgV::Hello { name: name@, color, listen_port },
            Msg::Welcome { pid, start_tick, peers, snapshot } => MsgV::Welcome {
                pid,
                start_tick,
                peers: peers_view(peers@),
                snapshot: snapshot@,
            },
            Msg::Deny { reason } => MsgV::Deny { reason: reason@ },
            Msg::Freeze { at } => MsgV::Freeze { at },
            Msg::PeerJoined { info, start_tick } => MsgV::PeerJoined { info: info@, start_tick },
            Msg::Dial { pid } => MsgV::Dial { pid },
            Msg::Cmds { tick, pid, cmds } => MsgV::Cmds { tick, pid, cmds: commands_view(cmds@) },
            Msg::HashChk { tick, hash } => MsgV::HashChk { tick, hash },
            Msg::Left { pid, from, backfill } => MsgV::Left { pid, from, backfill: backfill_view(backfill@) },
            Msg::MigrateResume { old, resume_tick, bots, snapshot } => MsgV::MigrateResume {
                old,
                resume_tick,
                bots: bots@,
                snapshot: snapshot@,
            },
        }
    }
}

pub open spec fn put_row(row: (u32, Seq<CommandV>)) -> Seq<u8> {
    le(row.0 as nat, 4) + put_orders(row.1)
}

pub open spec fn put_msg(m: MsgV) -> Seq<u8> {
    match m {
        MsgV::Hello { name, color, listen_port } => seq![0u8] + (put_text(name) + (seq![color] + le(
            listen_port as nat,
            2,
        ))),
        MsgV::Welcome { pid, start_tick, peers, snapshot } => seq![1u8] + (seq![pid] + (le(start_tick as nat, 4) + ((le(
            peers.len(),
            1,
        ) + put_all(peers, |p: PeerInfoV| put_peer(p))) + put_blob(snapshot)))),
        MsgV::Deny { reason } => seq![2u8] + put_text(reason),
        MsgV::Freeze { at } => seq![3u8] + le(at as nat, 4),
        MsgV::PeerJoined { info, start_tick } => seq![4u8] + (put_peer(info) + le(start_tick as nat, 4)),
        MsgV::Dial { pid } => seq![5u8] + seq![pid],
        MsgV::Cmds { tick, pid, cmds } => seq![6u8] + (le(tick as nat, 4) + (seq![pid] + put_orders(cmds))),
        MsgV::HashChk { tick, hash } => seq![7u8] + (le(tick as nat, 4) + le(hash as nat, 8)),
        MsgV::Left { pid, from, backfill } => seq![8u8] + (seq![pid] + (le(from as nat, 4) + (le(backfill.len(), 2)
            + put_all(backfill, |row: (u32, Seq<CommandV>)| put_row(row))))),
        MsgV::MigrateResume { old, resume_tick, bots, snapshot } => seq![9u8] + (seq![old] + (le(
            resume_tick as nat,
            4,
        ) + (le(bots.len(), 1) + (bots + put_blob(snapshot))))),
    }
}

pub open spec fn take_row(s: Seq<u8>) -> Option<((u32, Seq<CommandV>), Seq<u8>)> {
    match take_le(s, 4) {
        Some((t, s1)) => match take_orders(s1) {
            Some((cs, s2)) => Some(((t as u32, cs), s2)),
            None => None,
        },
        None => None,
    }
}

pub open spec fn take_hello(s: Seq<u8>) -> Option<(MsgV, Seq<u8>)> {
    match take_text(s) {
        Some((name, s1)) => match take_u8(s1) {
            Some((color, s2)) => match take_le(s2, 2) {
                Some((port, s3)) => Some((MsgV::Hello { name, color, listen_port: port as u16 }, s3)),
                None => None,
            },
            None => None,
        },
        None => None,
    }
}

pub open spec fn take_welcome(s: Seq<u8>) -> Option<(MsgV, Seq<u8>)> {
    match take_u8(s) {
        Some((pid, s1)) => match take_le(s1, 4) {
            Some((t, s2)) => match take_peers(s2) {
                Some((peers, s3)) => match take_blob(s3) {
                    Some((snapshot, s4)) => Some((MsgV::Welcome { pid, start_tick: t as u32, peers, snapshot }, s4)),
                    None => None,
                },
                None => None,
            },
            None => None,
        },
        None => None,
    }
}

pub open spec fn take_joined(s: Seq<u8>) -> Option<(MsgV, Seq<u8>)> {
    match take_peer(s) {
        Some((info, s1)) => match take_le(s1, 4) {
            Some((t, s2)) => Some((MsgV::PeerJoined { info, start_tick: t as u32 }, s2)),
            None => None,
        },
        None => None,
    }
}

pub open spec fn take_cmds(s: Seq<u8>) -> Option<(MsgV, Seq<u8>)> {
    match take_le(s, 4) {
        Some((t, s1)) => match take_u8(s1) {
            Some((pid, s2)) => match take_orders(s2) {
                Some((cmds, s3)) => Some((MsgV::Cmds { tick: t as u32, pid, cmds }, s3)),
                None => None,
            },
            None => None,
        },
        None => None,
    }
}

pub open spec fn take_hash(s: Seq<u8>) -> Option<(MsgV, Seq<u8>)> {
    match take_le(s, 4) {
        Some((t, s1)) => match take_le(s1, 8) {
            Some((h, s2)) => Some((MsgV::HashChk { tick: t as u32, hash: h as u64 }, s2)),
            None => None,
        },
        None => None,
    }
}

pub open spec fn take_rows(s: Seq<u8>) -> Option<(Seq<(u32, Seq<CommandV>)>, Seq<u8>)> {
    match take_le(s, 2) {
        Some((n, s1)) => take_all(s1, n, |b: Seq<u8>| take_row(b)),
        None => None,
    }
}

pub open spec fn take_left(s: Seq<u8>) -> Option<(MsgV, Seq<u8>)> {
    match take_u8(s) {
        Some((pid, s1)) => match take_le(s1, 4) {
            Some((from, s2)) => match take_rows(s2) {
                Some((backfill, s3)) => Some((MsgV::Left { pid, from: from as u32, backfill }, s3)),
                None => None,
            },
            None => None,
        },
        None => None,
    }
}

pub open spec fn take_migrate(s: Seq<u8>) -> Option<(MsgV, Seq<u8>)> {
    match take_u8(s) {
        Some((old, s1)) => match take_le(s1, 4) {
            Some((t, s2)) => match take_u8(s2) {
                Some((n, s3)) => match take_raw(s3, n as nat) {
                    Some((bots, s4)) => match take_blob(s4) {
                        Some((snapshot, s5)) => Some(
                            (MsgV::MigrateResume { old, resume_tick: t as u32, bots, snapshot }, s5),
                        ),
                        None => None,
                    },
                    None => None,
                },
                None => None,
            },
            None => None,
        },
        None => None,
    }
}

pub open spec fn take_msg(s: Seq<u8>) -> Option<(MsgV, Seq<u8>)> {
    match take_u8(s) {
        None => None,
        Some((tag, b)) => if tag == 0 {
            take_hello(b)
        } else if tag == 1 {
            take_welcome(b)
        } else if tag == 2 {
            match take_text(b) {
                Some((reason, r)) => Some((MsgV::Deny { reason }, r)),
                None => None,
            }
        } else if tag == 3 {
            match take_le(b, 4) {
                Some((at, r)) => Some((MsgV::Freeze { at: at as u32 }, r)),
                None => None,
            }
        } else if tag == 4 {
            take_joined(b)
        } else if tag == 5 {
            match take_u8(b) {
                Some((pid, r)) => Some((MsgV::Dial { pid }, r)),
                None => None,
            }
        } else if tag == 6 {
            take_cmds(b)
        } else if tag == 7 {
            take_hash(b)
        } else if tag == 8 {
            take_left(b)
        } else if tag == 9 {
            take_migrate(b)
        } else {
            None
        },
    }
}

/// The message that some bytes begin with; what follows it is not looked at.
pub open spec fn msg_of(s: Seq<u8>) -> Option<MsgV> {
    match take_msg(s) {
        Some((m, rest)) => Some(m),
        None => None,
    }
}

fn ser_rows(rows: &Vec<(u32, Vec<Command>)>, w: &mut W)
    ensures
        final(w)@ == old(w)@ + (le(rows@.len(), 2) + put_all(
            backfill_view(rows@),
            |row: (u32, Seq<CommandV>)| put_row(row),
        )),
{
    let ghost put = |row: (u32, Seq<CommandV>)| put_row(row);
    let ghost all = backfill_view(rows@);
    let n: usize = rows.len();
    w.u16((n % 0x1_0000) as u16);
    proof {
        le_mod(n as nat, 2);
    }
    let ghost base = w@;
    let mut i: usize = 0;
    proof {
        assert(all.skip(0) =~= all);
    }
    while i < rows.len()
        invariant
            i <= rows@.len(),
            all == backfill_view(rows@),
            put == (|row: (u32, Seq<CommandV>)| put_row(row)),
            w@ + put_all(all.skip(i as int), put) == base + put_all(all, put),
        decreases rows@.len() - i,
    {
        let ghost before = w@;
        w.u32(rows[i].0);
        ser_commands(&rows[i].1, w);
        proof {
            let rest = all.skip(i as int);
            assert(rest.drop_first() =~= all.skip(i + 1));
            assert(rest[0] == (rows@[i as int].0, commands_view(rows@[i as int].1@)));
            concat_assoc(before, le(rest[0].0 as nat, 4), put_orders(rest[0].1));
            concat_assoc(before, put_row(rest[0]), put_all(all.skip(i + 1), put));
        }
        i = i + 1;
    }
    proof {
        assert(w@ + put_all(all.skip(i as int), put) =~= w@);
        concat_assoc(old(w)@, le(n as nat, 2), put_all(all, put));
    }
}

fn de_rows(r: &mut R) -> (res: DResult<Vec<(u32, Vec<Command>)>>)
    requires
        old(r).wf(),
    ensures
        final(r).wf(),
        match take_rows(old(r)@) {
            Some((rows, tail)) => res is Ok && backfill_view(res->Ok_0@) == rows && final(r)@ == tail,
            None => res is Err,
        },
{
    let ghost take = |b: Seq<u8>| take_row(b);
    let n: u16 = r.u16()?;
    let ghost start = r@;
    let mut out: Vec<(u32, Vec<Command>)> = Vec::new();
    let mut k: u16 = 0;
    proof {
        match take_all(start, n as nat, take) {
            Some((xs, rest)) => {
                assert(backfill_view(out@) + xs =~= xs);
            },
            None => {},
        }
    }
    while k < n
        invariant
            k <= n,
            r.wf(),
            take == (|b: Seq<u8>| take_row(b)),
            take_rows(old(r)@) == take_all(start, n as nat, take),
            take_all(start, n as nat, take) == (match take_all(r@, (n - k) as nat, take) {
                Some((xs, rest)) => Some((backfill_view(out@) + xs, rest)),
                None => None,
            }),
        decreases n - k,
    {
        let ghost before = r@;
        let ghost got = out@;
        let t: u32 = match r.u32() {
            Ok(t) => t,
            Err(x) => {
                return Err(x);
            },
        };
        let cs: Vec<Command> = match de_commands(r) {
            Ok(cs) => cs,
            Err(x) => {
                return Err(x);
            },
        };
        let ghost row = (t, commands_view(cs@));
        out.push((t, cs));
        proof {
            assert(backfill_view(out@) =~= backfill_view(got).push(row));
            assert(take(before) == Some((row, r@)));
            match take_all(r@, (n - k - 1) as nat, take) {
                Some((xs, rest)) => {
                    assert(backfill_view(got) + (seq![row] + xs) =~= backfill_view(out@) + xs);
                },
                None => {},
            }
        }
        k = k + 1;
    }
    proof {
        assert(backfill_view(out@) + Seq::<(u32, Seq<CommandV>)>::empty() =~= backfill_view(out@));
    }
    Ok(out)
}

impl Msg {
    pub fn encode(&self) -> (r: Vec<u8>)
        ensures
            r@ == put_msg(self@),
    {
        let mut w = W::new();
        match self {
            Msg::Hello { name, color, listen_port } => {
                w.u8(0);
                w.str(name.as_str());
                w.u8(*color);
                w.u16(*listen_port);
            },
            Msg::Welcome { pid, start_tick, peers, snapshot } => {
                w.u8(1);
                w.u8(*pid);
                w.u32(*start_tick);
                ser_peers(peers, &mut w);
                w.bytes(snapshot.as_slice());
            },
            Msg::Deny { reason } => {
                w.u8(2);
                w.str(reason.as_str());
            },
            Msg::Freeze { at } => {
                w.u8(3);
                w.u32(*at);
            },
            Msg::PeerJoined { info, start_tick } => {
                w.u8(4);
                info.ser(&mut w);
                w.u32(*start_tick);
            },
            Msg::Dial { pid } => {
                w.u8(5);
                w.u8(*pid);
            },
            Msg::Cmds { tick, pid, cmds } => {
                w.u8(6);
                w.u32(*tick);
                w.u8(*pid);
                ser_commands(cmds, &mut w);
            },
            Msg::HashChk { tick, hash } => {
                w.u8(7);
                w.u32(*tick);
                w.u64(*hash);
            },
            Msg::Left { pid, from, backfill } => {
                w.u8(8);
                w.u8(*pid);
                w.u32(*from);
                ser_rows(backfill, &mut w);
            },
            Msg::MigrateResume { old, resume_tick, bots, snapshot } => {
                w.u8(9);
                w.u8(*old);
                w.u32(*resume_tick);
                let n: usize = bots.len();
                w.u8((n % 0x100) as u8);
                proof {
                    le_mod(n as nat, 1);
                    reveal_with_fuel(le, 2);
                    assert(le(n as nat, 1) =~= seq![(n % 0x100) as u8]);
                }
                w.raw(bots.as_slice());
                w.bytes(snapshot.as_slice());
            },
        }
        proof {
            assert(w@ =~= put_msg(self@));
        }
        w.buf
    }

    pub fn decode(bytes: &[u8]) -> (res: DResult<Msg>)
        ensures
            res is Ok <==> msg_of(bytes@) is Some,
            res matches Ok(m) ==> msg_of(bytes@) == Some(m@),
    {
        let mut r = R::new(bytes);
        let tag: u8 = r.u8()?;
        match tag {
            0 => {
                let name: String = r.str()?;
                let color: u8 = r.u8()?;
                let listen_port: u16 = r.u16()?;
                Ok(Msg::Hello { name, color, listen_port })
            },
            1 => {
                let pid: u8 = r.u8()?;
                let start_tick: u32 = r.u32()?;
                let peers: Vec<PeerInfo> = de_peers(&mut r)?;
                let snapshot: Vec<u8> = r.bytes()?;
                Ok(Msg::Welcome { pid, start_tick, peers, snapshot })
            },
            2 => {
                let reason: String = r.str()?;
                Ok(Msg::Deny { reason })
            },
            3 => {
                let at: u32 = r.u32()?;
                Ok(Msg::Freeze { at })
            },
            4 => {
                let info: PeerInfo = PeerInfo::de(&mut r)?;
                let start_tick: u32 = r.u32()?;
                Ok(Msg::PeerJoined { info, start_tick })
            },
            5 => {
                let pid: u8 = r.u8()?;
                Ok(Msg::Dial { pid })
            },
            6 => {
                let tick: u32 = r.u32()?;
                let pid: u8 = r.u8()?;
                let cmds: Vec<Command> = de_commands(&mut r)?;
                Ok(Msg::Cmds { tick, pid, cmds })
            },
            7 => {
                let tick: u32 = r.u32()?;
                let hash: u64 = r.u64()?;
                Ok(Msg::HashChk { tick, hash })
            },
            8 => {
                let pid: u8 = r.u8()?;
                let from: u32 = r.u32()?;
                let backfill: Vec<(u32, Vec<Command>)> = de_rows(&mut r)?;
                Ok(Msg::Left { pid, from, backfill })
            },
            9 => {
                let old: u8 = r.u8()?;
                let resume_tick: u32 = r.u32()?;
                let n: u8 = r.u8()?;
                let bots: Vec<u8> = r.raw(n as usize)?;
                let snapshot: Vec<u8> = r.bytes()?;
                Ok(Msg::MigrateResume { old, resume_tick, bots, snapshot })
            },
            _ => Err(DecodeErr),
        }
    }
}

// ----------------------------------------------------------------------
// The signed envelope: every frame on the wire is one of these
// ----------------------------------------------------------------------

/// `payload` is an encoded `Msg`; `sig` is BIP-340 Schnorr by `sender` over a tagged hash of
/// (sender ‖ seq ‖ payload). `seq` is strictly increasing per sender.
#[derive(Clone, Debug)]
pub struct Envelope {
    pub sender: PubKey,
    pub seq: u64,
    pub payload: Vec<u8>,
    pub sig: [u8; 64],
}

/// An envelope by its contents.
#[verifier::ext_equal]
pub struct EnvelopeV {
    pub sender: Seq<u8>,
    pub seq: u64,
    pub payload: Seq<u8>,
    pub sig: Seq<u8>,
}

impl View for Envelope {
    type V = EnvelopeV;

    open spec fn view(&self) -> EnvelopeV {
        EnvelopeV { sender: self.sender@, seq: self.seq, payload: self.payload@, sig: self.sig@ }
    }
}

pub open spec fn put_envelope(e: EnvelopeV) -> Seq<u8> {
    e.sender + (le(e.seq as nat, 8) + (put_blob(e.payload) + e.sig))
}

/// The envelope that some bytes begin with; what follows it is not looked at.
pub open spec fn envelope_of(s: Seq<u8>) -> Option<EnvelopeV> {
    match take_raw(s, 32) {
        Some((sender, s1)) => match take_le(s1, 8) {
            Some((seq, s2)) => match take_blob(s2) {
                Some((payload, s3)) => match take_raw(s3, 64) {
                    Some((sig, s4)) => Some(EnvelopeV { sender, seq: seq as u64, payload, sig }),
                    None => None,
                },
                None => None,
            },
            None => None,
        },
        None => None,
    }
}

/// What the sender of an envelope signs.
pub open spec fn digest_of(sender: Seq<u8>, seq: u64, payload: Seq<u8>) -> Seq<u8> {
    tagged_of(MSG_TAG@, sender + le(seq as nat, 8) + payload)
}

/// Does the signature check out against the claimed sender?
pub open spec fn envelope_valid(e: EnvelopeV) -> bool {
    signature_valid(e.sender, digest_of(e.sender, e.seq, e.payload), e.sig)
}

impl Envelope {
    fn digest(sender: &PubKey, seq: u64, payload: &[u8]) -> (r: [u8; 32])
        ensures
            r@ == digest_of(sender@, seq, payload@),
    {
        let mut w = W::new();
        w.u64(seq);
        let parts: [&[u8]; 3] = [sender.as_slice(), w.buf.as_slice(), payload];
        let ghost ps = parts_of(parts@);
        proof {
            reveal_with_fuel(joined, 4);
            assert(w@ =~= le(seq as nat, 8));
            assert(ps.len() == 3);
            assert(ps.drop_last().drop_last().drop_last() =~= Seq::<Seq<u8>>::empty());
            assert(joined(ps) =~= sender@ + le(seq as nat, 8) + payload@);
        }
        tagged_hash(MSG_TAG, parts.as_slice())
    }

    /// Sign and encode a message into wire bytes, with given auxiliary randomness.
    pub fn seal_with(id: &Identity, seq: u64, msg: &Msg, aux: &[u8; 32]) -> (r: Option<Vec<u8>>)
        ensures
            sealed_by(id.secret(), id.public(), seq, msg@, aux@, r),
            sealed_frame(id, seq, msg@, r),
    {
        let payload: Vec<u8> = msg.encode();
        let pk: PubKey = id.public_key();
        let digest: [u8; 32] = Envelope::digest(&pk, seq, payload.as_slice());
        match id.sign_with(&digest, aux) {
            Some(sig) => Some(Envelope::pack(&pk, seq, payload.as_slice(), &sig)),
            None => None,
        }
    }

    /// Sign and encode a message into wire bytes. Nothing where the curve library refuses to
    /// sign.
    pub fn seal(id: &Identity, seq: u64, msg: &Msg) -> (r: Option<Vec<u8>>)
        ensures
            sealed(id.secret(), id.public(), seq, msg@, r),
            sealed_frame(id, seq, msg@, r),
    {
        let payload: Vec<u8> = msg.encode();
        let pk: PubKey = id.public_key();
        let digest: [u8; 32] = Envelope::digest(&pk, seq, payload.as_slice());
        let sig: Option<[u8; 64]> = id.sign(&digest);
        let ghost aux = choose|aux: Seq<u8>| #[trigger] signature_by(id.secret(), digest@, aux, sig);
        let r: Option<Vec<u8>> = match sig {
            Some(sig) => Some(Envelope::pack(&pk, seq, payload.as_slice(), &sig)),
            None => None,
        };
        proof {
            assert(sealed_by(id.secret(), id.public(), seq, msg@, aux, r));
        }
        r
    }

    fn pack(sender: &PubKey, seq: u64, payload: &[u8], sig: &[u8; 64]) -> (r: Vec<u8>)
        ensures
            r@ == put_envelope(EnvelopeV { sender: sender@, seq, payload: payload@, sig: sig@ }),
            payload@.len() < 0x1_0000_0000 ==> envelope_of(r@) == Some(
                EnvelopeV { sender: sender@, seq, payload: payload@, sig: sig@ },
            ),
    {
        let mut w = W::new();
        w.arr32(sender);
        w.u64(seq);
        w.bytes(payload);
        w.raw(sig.as_slice());
        proof {
            let e = EnvelopeV { sender: sender@, seq, payload: payload@, sig: sig@ };
            assert(w@ =~= put_envelope(e));
            if payload@.len() < 0x1_0000_0000 {
                envelope_reads_back(e, Seq::empty());
                assert(put_envelope(e) + Seq::<u8>::empty() =~= put_envelope(e));
            }
        }
        w.buf
    }

    pub fn decode(bytes: &[u8]) -> (res: DResult<Envelope>)
        ensures
            res is Ok <==> envelope_of(bytes@) is Some,
            res matches Ok(e) ==> envelope_of(bytes@) == Some(e@),
    {
        let mut r = R::new(bytes);
        let sender: PubKey = r.arr32()?;
        let seq: u64 = r.u64()?;
        let payload: Vec<u8> = r.bytes()?;
        let raw: Vec<u8> = r.raw(64)?;
        Ok(Envelope { sender, seq, payload, sig: sig_of(raw.as_slice()) })
    }

    /// Does the signature check out against the claimed sender?
    pub fn verify(&self) -> (r: bool)
        ensures
            r == envelope_valid(self@),
    {
        verify(&self.sender, &Envelope::digest(&self.sender, self.seq, self.payload.as_slice()), &self.sig)
    }
}

/// The first sixty-four bytes as an array.
pub fn sig_of(b: &[u8]) -> (r: [u8; 64])
    requires
        b@.len() == 64,
    ensures
        r@ == b@,
{
    let mut out = [0u8; 64];
    let mut i: usize = 0;
    while i < 64
        invariant
            i <= 64,
            b@.len() == 64,
            forall|j: int| 0 <= j < i ==> out@[j] == b@[j],
        decreases 64 - i,
    {
        out[i] = b[i];
        i = i + 1;
    }
    proof {
        assert(out@ =~= b@);
    }
    out
}

/// `r` is the frame that signing with the auxiliary randomness `aux` gives.
pub open spec fn sealed_by(
    secret: Seq<u8>,
    public: Seq<u8>,
    seq: u64,
    msg: MsgV,
    aux: Seq<u8>,
    r: Option<Vec<u8>>,
) -> bool {
    let payload = put_msg(msg);
    match crate::crypto::signature_of(secret, digest_of(public, seq, payload), aux) {
        Some(sig) => r is Some && r->0@ == put_envelope(EnvelopeV { sender: public, seq, payload, sig }),
        None => r is None,
    }
}

/// `r` is a frame that signing with some auxiliary randomness gives.
pub open spec fn sealed(secret: Seq<u8>, public: Seq<u8>, seq: u64, msg: MsgV, r: Option<Vec<u8>>) -> bool {
    exists|aux: Seq<u8>| #[trigger] sealed_by(secret, public, seq, msg, aux, r)
}

/// A sealed frame opens to the sender, the number and the message it was sealed with, and its
/// signature verifies.
pub open spec fn sealed_frame(id: &Identity, seq: u64, msg: MsgV, r: Option<Vec<u8>>) -> bool {
    r is Some && put_msg(msg).len() < 0x1_0000_0000 ==> {
        &&& envelope_of(r->0@) is Some
        &&& (envelope_of(r->0@)->0).sender == id.public()
        &&& (envelope_of(r->0@)->0).seq == seq
        &&& (envelope_of(r->0@)->0).payload == put_msg(msg)
        &&& id.wf() ==> envelope_valid(envelope_of(r->0@)->0)
    }
}

// ----------------------------------------------------------------------
// Framing
// ----------------------------------------------------------------------

/// A payload with its length in front, as it goes over a stream.
pub open spec fn framed(payload: Seq<u8>) -> Seq<u8> {
    put_blob(payload)
}

/// What a stream's bytes so far hold.
#[derive(Debug)]
pub enum Frame {
    /// A whole frame, and how many bytes of the stream it took.
    Whole { payload: Vec<u8>, used: usize },
    /// The frame is not complete yet.
    Partial,
    /// The announced length is over the limit: the stream cannot be trusted further.
    TooLarge,
}

/// Length-prefix one raw frame (an encoded `Envelope`) onto an outgoing buffer.
pub fn write_frame(stream: &mut Vec<u8>, payload: &[u8])
    ensures
        final(stream)@ == old(stream)@ + framed(payload@),
{
    let mut w = W::new();
    w.bytes(payload);
    proof {
        assert(w@ =~= framed(payload@));
    }
    stream.append(&mut w.buf);
}

/// Read one length-prefixed raw frame off the front of the received bytes. Decoding and
/// verification are the session's business.
pub fn read_frame(stream: &[u8]) -> (r: Frame)
    ensures
        r is Partial <==> stream@.len() < 4 || (le_value(stream@.take(4)) <= MAX_FRAME && take_blob(stream@) is None),
        r is TooLarge <==> stream@.len() >= 4 && le_value(stream@.take(4)) > MAX_FRAME,
        r matches Frame::Whole { payload, used } ==> take_blob(stream@) == Some((payload@, stream@.skip(used as int)))
            && used == 4 + payload@.len() && used <= stream@.len(),
{
    let mut r = R::new(stream);
    match r.u32() {
        Ok(n) => {
            if n > 33_554_432u32 {
                return Frame::TooLarge;
            }
            match r.raw(n as usize) {
                Ok(payload) => {
                    let used: usize = 4 + n as usize;
                    proof {
                        assert(stream@.skip(4).skip(n as int) =~= stream@.skip(used as int));
                    }
                    Frame::Whole { payload, used }
                },
                Err(_) => Frame::Partial,
            }
        },
        Err(_) => Frame::Partial,
    }
}

// ----------------------------------------------------------------------
// Laws
// ----------------------------------------------------------------------

pub open spec fn peer_fits(p: PeerInfoV) -> bool {
    encode_utf8(p.name).len() < 0x1_0000_0000 && encode_utf8(p.addr).len() < 0x1_0000_0000 && p.key.len() == 32
}

/// Does every length in the message fit the width it is written with?
pub open spec fn msg_fits(m: MsgV) -> bool {
    match m {
        MsgV::Hello { name, color, listen_port } => encode_utf8(name).len() < 0x1_0000_0000,
        MsgV::Welcome { pid, start_tick, peers, snapshot } => peers.len() < 0x100 && snapshot.len() < 0x1_0000_0000
            && forall|i: int| 0 <= i < peers.len() ==> peer_fits(#[trigger] peers[i]),
        MsgV::Deny { reason } => encode_utf8(reason).len() < 0x1_0000_0000,
        MsgV::PeerJoined { info, start_tick } => peer_fits(info),
        MsgV::Cmds { tick, pid, cmds } => orders_fit(cmds),
        MsgV::Left { pid, from, backfill } => backfill.len() < 0x1_0000 && forall|i: int|
            0 <= i < backfill.len() ==> orders_fit((#[trigger] backfill[i]).1),
        MsgV::MigrateResume { old, resume_tick, bots, snapshot } => bots.len() < 0x100 && snapshot.len()
            < 0x1_0000_0000,
        _ => true,
    }
}

proof fn peer_reads_back(p: PeerInfoV, rest: Seq<u8>)
    requires
        peer_fits(p),
    ensures
        take_peer(put_peer(p) + rest) == Some((p, rest)),
{
    let b5 = put_bool(p.bot) + rest;
    let b4 = p.key + b5;
    let b3 = put_text(p.addr) + b4;
    let b2 = seq![p.color] + b3;
    let b1 = put_text(p.name) + b2;
    concat_assoc(p.key, put_bool(p.bot), rest);
    concat_assoc(put_text(p.addr), p.key + put_bool(p.bot), rest);
    concat_assoc(seq![p.color], put_text(p.addr) + (p.key + put_bool(p.bot)), rest);
    concat_assoc(put_text(p.name), seq![p.color] + (put_text(p.addr) + (p.key + put_bool(p.bot))), rest);
    take_tagged(p.pid, put_text(p.name) + (seq![p.color] + (put_text(p.addr) + (p.key + put_bool(p.bot)))), rest);
    take_put_text(p.name, b2);
    take_put_u8(p.color, b3);
    take_put_text(p.addr, b4);
    take_put_raw(p.key, b5);
    take_put_bool(p.bot, rest);
}

proof fn small_count(n: nat, rest: Seq<u8>)
    requires
        n < 0x100,
    ensures
        take_u8(le(n, 1) + rest) == Some((n as u8, rest)),
{
    reveal_with_fuel(le, 2);
    assert(le(n, 1) =~= seq![n as u8]);
    take_put_u8(n as u8, rest);
}

proof fn peers_read_back(ps: Seq<PeerInfoV>, rest: Seq<u8>)
    requires
        ps.len() < 0x100,
        forall|i: int| 0 <= i < ps.len() ==> peer_fits(#[trigger] ps[i]),
    ensures
        take_peers((le(ps.len(), 1) + put_all(ps, |p: PeerInfoV| put_peer(p))) + rest) == Some((ps, rest)),
{
    let put = |p: PeerInfoV| put_peer(p);
    let take = |b: Seq<u8>| take_peer(b);
    concat_assoc(le(ps.len(), 1), put_all(ps, put), rest);
    small_count(ps.len(), put_all(ps, put) + rest);
    assert forall|i: int, r: Seq<u8>| 0 <= i < ps.len() implies #[trigger] take(put(ps[i]) + r) == Some((ps[i], r)) by {
        peer_reads_back(ps[i], r);
    }
    take_put_all(ps, put, take, rest);
}

proof fn row_reads_back(row: (u32, Seq<CommandV>), rest: Seq<u8>)
    requires
        orders_fit(row.1),
    ensures
        take_row(put_row(row) + rest) == Some((row, rest)),
{
    pow256_values();
    concat_assoc(le(row.0 as nat, 4), put_orders(row.1), rest);
    take_put_le(row.0 as nat, 4, put_orders(row.1) + rest);
    orders_read_back(row.1, rest);
}

proof fn rows_read_back(rows: Seq<(u32, Seq<CommandV>)>, rest: Seq<u8>)
    requires
        rows.len() < 0x1_0000,
        forall|i: int| 0 <= i < rows.len() ==> orders_fit((#[trigger] rows[i]).1),
    ensures
        take_rows((le(rows.len(), 2) + put_all(rows, |row: (u32, Seq<CommandV>)| put_row(row))) + rest) == Some(
            (rows, rest),
        ),
{
    pow256_values();
    let put = |row: (u32, Seq<CommandV>)| put_row(row);
    let take = |b: Seq<u8>| take_row(b);
    concat_assoc(le(rows.len(), 2), put_all(rows, put), rest);
    take_put_le(rows.len(), 2, put_all(rows, put) + rest);
    assert forall|i: int, r: Seq<u8>| 0 <= i < rows.len() implies #[trigger] take(put(rows[i]) + r) == Some(
        (rows[i], r),
    ) by {
        row_reads_back(rows[i], r);
    }
    take_put_all(rows, put, take, rest);
}

/// Decoding an encoded message gives the message back.
pub proof fn msg_reads_back(m: MsgV, rest: Seq<u8>)
    requires
        msg_fits(m),
    ensures
        take_msg(put_msg(m) + rest) == Some((m, rest)),
        msg_of(put_msg(m)) == Some(m),
{
    msg_takes_back(m, rest);
    msg_takes_back(m, Seq::empty());
    assert(put_msg(m) + Seq::<u8>::empty() =~= put_msg(m));
}

#[verifier::rlimit(30)]
proof fn msg_takes_back(m: MsgV, rest: Seq<u8>)
    requires
        msg_fits(m),
    ensures
        take_msg(put_msg(m) + rest) == Some((m, rest)),
{
    pow256_values();
    match m {
        MsgV::Hello { name, color, listen_port } => {
            let port = le(listen_port as nat, 2);
            take_tagged(0, put_text(name) + (seq![color] + port), rest);
            concat_assoc(put_text(name), seq![color] + port, rest);
            concat_assoc(seq![color], port, rest);
            take_put_text(name, seq![color] + (port + rest));
            take_put_u8(color, port + rest);
            take_put_le(listen_port as nat, 2, rest);
        },
        MsgV::Welcome { pid, start_tick, peers, snapshot } => {
            let t = le(start_tick as nat, 4);
            let ps = le(peers.len(), 1) + put_all(peers, |p: PeerInfoV| put_peer(p));
            let snap = put_blob(snapshot);
            take_tagged(1, seq![pid] + (t + (ps + snap)), rest);
            concat_assoc(seq![pid], t + (ps + snap), rest);
            concat_assoc(t, ps + snap, rest);
            concat_assoc(ps, snap, rest);
            take_put_u8(pid, t + (ps + (snap + rest)));
            take_put_le(start_tick as nat, 4, ps + (snap + rest));
            peers_read_back(peers, snap + rest);
            take_put_blob(snapshot, rest);
        },
        MsgV::Deny { reason } => {
            take_tagged(2, put_text(reason), rest);
            take_put_text(reason, rest);
        },
        MsgV::Freeze { at } => {
            take_tagged(3, le(at as nat, 4), rest);
            take_put_le(at as nat, 4, rest);
        },
        MsgV::PeerJoined { info, start_tick } => {
            let t = le(start_tick as nat, 4);
            take_tagged(4, put_peer(info) + t, rest);
            concat_assoc(put_peer(info), t, rest);
            peer_reads_back(info, t + rest);
            take_put_le(start_tick as nat, 4, rest);
        },
        MsgV::Dial { pid } => {
            take_tagged(5, seq![pid], rest);
            take_put_u8(pid, rest);
        },
        MsgV::Cmds { tick, pid, cmds } => {
            let t = le(tick as nat, 4);
            let cs = put_orders(cmds);
            take_tagged(6, t + (seq![pid] + cs), rest);
            concat_assoc(t, seq![pid] + cs, rest);
            concat_assoc(seq![pid], cs, rest);
            take_put_le(tick as nat, 4, seq![pid] + (cs + rest));
            take_put_u8(pid, cs + rest);
            orders_read_back(cmds, rest);
        },
        MsgV::HashChk { tick, hash } => {
            let t = le(tick as nat, 4);
            let h = le(hash as nat, 8);
            take_tagged(7, t + h, rest);
            concat_assoc(t, h, rest);
            take_put_le(tick as nat, 4, h + rest);
            take_put_le(hash as nat, 8, rest);
        },
        MsgV::Left { pid, from, backfill } => {
            let f = le(from as nat, 4);
            let rows = le(backfill.len(), 2) + put_all(backfill, |row: (u32, Seq<CommandV>)| put_row(row));
            take_tagged(8, seq![pid] + (f + rows), rest);
            concat_assoc(seq![pid], f + rows, rest);
            concat_assoc(f, rows, rest);
            take_put_u8(pid, f + (rows + rest));
            take_put_le(from as nat, 4, rows + rest);
            rows_read_back(backfill, rest);
        },
        MsgV::MigrateResume { old, resume_tick, bots, snapshot } => {
            let t = le(resume_tick as nat, 4);
            let n = le(bots.len(), 1);
            let snap = put_blob(snapshot);
            take_tagged(9, seq![old] + (t + (n + (bots + snap))), rest);
            concat_assoc(seq![old], t + (n + (bots + snap)), rest);
            concat_assoc(t, n + (bots + snap), rest);
            concat_assoc(n, bots + snap, rest);
            concat_assoc(bots, snap, rest);
            take_put_u8(old, t + (n + (bots + (snap + rest))));
            take_put_le(resume_tick as nat, 4, n + (bots + (snap + rest)));
            small_count(bots.len(), bots + (snap + rest));
            take_put_raw(bots, snap + rest);
            take_put_blob(snapshot, rest);
        },
    }
}

/// Decoding an encoded envelope gives the envelope back, whatever follows it.
pub proof fn envelope_reads_back(e: EnvelopeV, rest: Seq<u8>)
    requires
        e.sender.len() == 32,
        e.sig.len() == 64,
        e.payload.len() < 0x1_0000_0000,
    ensures
        envelope_of(put_envelope(e) + rest) == Some(e),
{
    pow256_values();
    let q = le(e.seq as nat, 8);
    let p = put_blob(e.payload);
    concat_assoc(e.sender, q + (p + e.sig), rest);
    concat_assoc(q, p + e.sig, rest);
    concat_assoc(p, e.sig, rest);
    take_put_raw(e.sender, q + (p + (e.sig + rest)));
    take_put_le(e.seq as nat, 8, p + (e.sig + rest));
    take_put_blob(e.payload, e.sig + rest);
    take_put_raw(e.sig, rest);
}

/// A frame written to a stream is read back whole, and what follows it is left.
pub proof fn frame_reads_back(payload: Seq<u8>, rest: Seq<u8>)
    requires
        payload.len() <= MAX_FRAME,
    ensures
        take_blob(framed(payload) + rest) == Some((payload, rest)),
        le_value((framed(payload) + rest).take(4)) == payload.len(),
{
    take_put_blob(payload, rest);
    pow256_values();
    le_reads_back(payload.len(), 4);
    assert((framed(payload) + rest).take(4) =~= le(payload.len(), 4));
}

} // verus!
