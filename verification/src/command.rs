//! The orders a player can give, and their encoding.
//!
//! Commands are all that peers exchange: every machine runs the same commands in the same
//! order, so every machine computes the same world.

use crate::crypto::PubKey;
use crate::ser::{
    bits32, concat_assoc, le, put_all, put_text, pow256_values, take_all, take_i32, take_le, take_put_all, take_put_i32, take_put_le,
    take_put_raw, take_put_text, take_put_u8, take_raw, take_tagged, take_text, take_u8, took, took_view, DResult, DecodeErr, R, W,
};
use vstd::prelude::*;
use vstd::utf8::encode_utf8;

verus! {

/// Handle of an entity: slot and generation.
#[derive(Clone, Copy, Debug, PartialEq, Eq, Structural)]
pub struct Eid {
    pub idx: u32,
    pub gen: u32,
}

/// A tile position.
#[derive(Clone, Copy, Debug, PartialEq, Eq, Structural)]
pub struct Tp {
    pub x: i32,
    pub y: i32,
}

impl Tp {
    pub fn new(x: i32, y: i32) -> (t: Tp)
        ensures
            t == (Tp { x, y }),
    {
        Tp { x, y }
    }
}

#[allow(inconsistent_fields)]
#[derive(Clone, Debug)]
pub enum Command {
    /// Found or reclaim a settlement.
    Join { name: String, color: u8, key: PubKey },
    Chat { text: String },
    Move { units: Vec<Eid>, to: Tp },
    AttackMove { units: Vec<Eid>, to: Tp },
    Attack { units: Vec<Eid>, target: Eid },
    Harvest { units: Vec<Eid>, tile: Tp },
    Capture { unit: Eid, target: Eid },
    Stop { units: Vec<Eid> },
    Sell { building: Eid },
    Train { building: Eid, kind: u8 },
    Build { kind: u8, at: Tp },
    SetRally { building: Eid, at: Tp },
    FireNuke { silo: Eid, at: Tp },
    GiveCredits { to: u8, amount: u32 },
    Ally { with: u8 },
}

/// A command by its contents.
#[allow(inconsistent_fields)]
#[verifier::ext_equal]
pub enum CommandV {
    Join { name: Seq<char>, color: u8, key: Seq<u8> },
    Chat { text: Seq<char> },
    Move { units: Seq<Eid>, to: Tp },
    AttackMove { units: Seq<Eid>, to: Tp },
    Attack { units: Seq<Eid>, target: Eid },
    Harvest { units: Seq<Eid>, tile: Tp },
    Capture { unit: Eid, target: Eid },
    Stop { units: Seq<Eid> },
    Sell { building: Eid },
    Train { building: Eid, kind: u8 },
    Build { kind: u8, at: Tp },
    SetRally { building: Eid, at: Tp },
    FireNuke { silo: Eid, at: Tp },
    GiveCredits { to: u8, amount: u32 },
    Ally { with: u8 },
}

impl View for Command {
    type V = CommandV;

    open spec fn view(&self) -> CommandV {
        match *self {
            Command::Join { name, color, key } => CommandV::Join { name: name@, color, key: key@ },
            Command::Chat { text } => CommandV::Chat { text: text@ },
            Command::Move { units, to } => CommandV::Move { units: units@, to },
            Command::AttackMove { units, to } => CommandV::AttackMove { units: units@, to },
            Command::Attack { units, target } => CommandV::Attack { units: units@, target },
            Command::Harvest { units, tile } => CommandV::Harvest { units: units@, tile },
            Command::Capture { unit, target } => CommandV::Capture { unit, target },
            Command::Stop { units } => CommandV::Stop { units: units@ },
            Command::Sell { building } => CommandV::Sell { building },
            Command::Train { building, kind } => CommandV::Train { building, kind },
            Command::Build { kind, at } => CommandV::Build { kind, at },
            Command::SetRally { building, at } => CommandV::SetRally { building, at },
            Command::FireNuke { silo, at } => CommandV::FireNuke { silo, at },
            Command::GiveCredits { to, amount } => CommandV::GiveCredits { to, amount },
            Command::Ally { with } => CommandV::Ally { with },
        }
    }
}

// ----------------------------------------------------------------------
// The format
// ----------------------------------------------------------------------

pub open spec fn put_eid(e: Eid) -> Seq<u8> {
    le(e.idx as nat, 4) + le(e.gen as nat, 4)
}

pub open spec fn put_tp(t: Tp) -> Seq<u8> {
    le(bits32(t.x), 4) + le(bits32(t.y), 4)
}

pub open spec fn put_units(us: Seq<Eid>) -> Seq<u8> {
    le(us.len(), 2) + put_all(us, |e: Eid| put_eid(e))
}

pub open spec fn put_command(c: CommandV) -> Seq<u8> {
    match c {
        CommandV::Join { name, color, key } => seq![0u8] + (put_text(name) + (seq![color] + key)),
        CommandV::Chat { text } => seq![1u8] + put_text(text),
        CommandV::Move { units, to } => seq![2u8] + (put_units(units) + put_tp(to)),
        CommandV::AttackMove { units, to } => seq![3u8] + (put_units(units) + put_tp(to)),
        CommandV::Attack { units, target } => seq![4u8] + (put_units(units) + put_eid(target)),
        CommandV::Harvest { units, tile } => seq![5u8] + (put_units(units) + put_tp(tile)),
        CommandV::Capture { unit, target } => seq![6u8] + (put_eid(unit) + put_eid(target)),
        CommandV::Stop { units } => seq![7u8] + put_units(units),
        CommandV::Sell { building } => seq![8u8] + put_eid(building),
        CommandV::Train { building, kind } => seq![9u8] + (put_eid(building) + seq![kind]),
        CommandV::Build { kind, at } => seq![10u8] + (seq![kind] + put_tp(at)),
        CommandV::SetRally { building, at } => seq![11u8] + (put_eid(building) + put_tp(at)),
        CommandV::FireNuke { silo, at } => seq![12u8] + (put_eid(silo) + put_tp(at)),
        CommandV::GiveCredits { to, amount } => seq![13u8] + (seq![to] + le(amount as nat, 4)),
        CommandV::Ally { with } => seq![14u8] + seq![with],
    }
}

pub open spec fn take_eid(s: Seq<u8>) -> Option<(Eid, Seq<u8>)> {
    match take_le(s, 4) {
        Some((idx, s1)) => match take_le(s1, 4) {
            Some((gen, s2)) => Some((Eid { idx: idx as u32, gen: gen as u32 }, s2)),
            None => None,
        },
        None => None,
    }
}

pub open spec fn take_tp(s: Seq<u8>) -> Option<(Tp, Seq<u8>)> {
    match take_i32(s) {
        Some((x, s1)) => match take_i32(s1) {
            Some((y, s2)) => Some((Tp { x, y }, s2)),
            None => None,
        },
        None => None,
    }
}

pub open spec fn take_units(s: Seq<u8>) -> Option<(Seq<Eid>, Seq<u8>)> {
    match take_le(s, 2) {
        Some((n, s1)) => take_all(s1, n, |b: Seq<u8>| take_eid(b)),
        None => None,
    }
}

pub open spec fn take_units_tp(s: Seq<u8>) -> Option<((Seq<Eid>, Tp), Seq<u8>)> {
    match take_units(s) {
        Some((us, s1)) => match take_tp(s1) {
            Some((t, s2)) => Some(((us, t), s2)),
            None => None,
        },
        None => None,
    }
}

pub open spec fn take_eid_tp(s: Seq<u8>) -> Option<((Eid, Tp), Seq<u8>)> {
    match take_eid(s) {
        Some((e, s1)) => match take_tp(s1) {
            Some((t, s2)) => Some(((e, t), s2)),
            None => None,
        },
        None => None,
    }
}

pub open spec fn take_join(s: Seq<u8>) -> Option<(CommandV, Seq<u8>)> {
    match take_text(s) {
        Some((name, s1)) => match take_u8(s1) {
            Some((color, s2)) => match take_raw(s2, 32) {
                Some((key, s3)) => Some((CommandV::Join { name, color, key }, s3)),
                None => None,
            },
            None => None,
        },
        None => None,
    }
}

pub open spec fn take_command(s: Seq<u8>) -> Option<(CommandV, Seq<u8>)> {
    match take_u8(s) {
        None => None,
        Some((tag, b)) => if tag == 0 {
            take_join(b)
        } else if tag == 1 {
            match take_text(b) {
                Some((text, r)) => Some((CommandV::Chat { text }, r)),
                None => None,
            }
        } else if tag == 2 {
            match take_units_tp(b) {
                Some(((units, to), r)) => Some((CommandV::Move { units, to }, r)),
                None => None,
            }
        } else if tag == 3 {
            match take_units_tp(b) {
                Some(((units, to), r)) => Some((CommandV::AttackMove { units, to }, r)),
                None => None,
            }
        } else if tag == 4 {
            match take_units(b) {
                Some((units, b1)) => match take_eid(b1) {
                    Some((target, r)) => Some((CommandV::Attack { units, target }, r)),
                    None => None,
                },
                None => None,
            }
        } else if tag == 5 {
            match take_units_tp(b) {
                Some(((units, tile), r)) => Some((CommandV::Harvest { units, tile }, r)),
                None => None,
            }
        } else if tag == 6 {
            match take_eid(b) {
                Some((unit, b1)) => match take_eid(b1) {
                    Some((target, r)) => Some((CommandV::Capture { unit, target }, r)),
                    None => None,
                },
                None => None,
            }
        } else if tag == 7 {
            match take_units(b) {
                Some((units, r)) => Some((CommandV::Stop { units }, r)),
                None => None,
            }
        } else if tag == 8 {
            match take_eid(b) {
                Some((building, r)) => Some((CommandV::Sell { building }, r)),
                None => None,
            }
        } else if tag == 9 {
            match take_eid(b) {
                Some((building, b1)) => match take_u8(b1) {
                    Some((kind, r)) => Some((CommandV::Train { building, kind }, r)),
                    None => None,
                },
                None => None,
            }
        } else if tag == 10 {
            match take_u8(b) {
                Some((kind, b1)) => match take_tp(b1) {
                    Some((at, r)) => Some((CommandV::Build { kind, at }, r)),
                    None => None,
                },
                None => None,
            }
        } else if tag == 11 {
            match take_eid_tp(b) {
                Some(((building, at), r)) => Some((CommandV::SetRally { building, at }, r)),
                None => None,
            }
        } else if tag == 12 {
            match take_eid_tp(b) {
                Some(((silo, at), r)) => Some((CommandV::FireNuke { silo, at }, r)),
                None => None,
            }
        } else if tag == 13 {
            match take_u8(b) {
                Some((to, b1)) => match take_le(b1, 4) {
                    Some((amount, r)) => Some((CommandV::GiveCredits { to, amount: amount as u32 }, r)),
                    None => None,
                },
                None => None,
            }
        } else if tag == 14 {
            match take_u8(b) {
                Some((with, r)) => Some((CommandV::Ally { with }, r)),
                None => None,
            }
        } else {
            None
        },
    }
}

// ----------------------------------------------------------------------
// Writing
// ----------------------------------------------------------------------

impl Eid {
    pub fn ser(&self, w: &mut W)
        ensures
            final(w)@ == old(w)@ + put_eid(*self),
    {
        w.u32(self.idx);
        w.u32(self.gen);
        proof {
            assert(w@ =~= old(w)@ + put_eid(*self));
        }
    }

    pub fn de(r: &mut R) -> (res: DResult<Eid>)
        requires
            old(r).wf(),
        ensures
            final(r).wf(),
            took(res, take_eid(old(r)@), final(r)@),
    {
        let idx: u32 = r.u32()?;
        let gen: u32 = r.u32()?;
        Ok(Eid { idx, gen })
    }
}

impl Tp {
    pub fn ser(&self, w: &mut W)
        ensures
            final(w)@ == old(w)@ + put_tp(*self),
    {
        w.i32(self.x);
        w.i32(self.y);
        proof {
            assert(w@ =~= old(w)@ + put_tp(*self));
        }
    }

    pub fn de(r: &mut R) -> (res: DResult<Tp>)
        requires
            old(r).wf(),
        ensures
            final(r).wf(),
            took(res, take_tp(old(r)@), final(r)@),
    {
        let x: i32 = r.i32()?;
        let y: i32 = r.i32()?;
        Ok(Tp { x, y })
    }
}

fn ser_units(units: &Vec<Eid>, w: &mut W)
    ensures
        final(w)@ == old(w)@ + put_units(units@),
{
    let ghost put = |e: Eid| put_eid(e);
    let n: usize = units.len();
    w.u16((n % 0x1_0000) as u16);
    proof {
        crate::ser::le_mod(n as nat, 2);
    }
    let ghost base = w@;
    let mut i: usize = 0;
    proof {
        assert(units@.skip(0) =~= units@);
    }
    while i < units.len()
        invariant
            i <= units@.len(),
            put == (|e: Eid| put_eid(e)),
            w@ + put_all(units@.skip(i as int), put) == base + put_all(units@, put),
        decreases units@.len() - i,
    {
        let ghost before = w@;
        units[i].ser(w);
        proof {
            let rest = units@.skip(i as int);
            assert(rest.drop_first() =~= units@.skip(i + 1));
            assert(rest[0] == units@[i as int]);
            assert(w@ + put_all(units@.skip(i + 1), put) =~= before + put_all(rest, put));
        }
        i = i + 1;
    }
    proof {
        assert(w@ + put_all(units@.skip(i as int), put) =~= w@);
        assert(w@ =~= old(w)@ + put_units(units@));
    }
}

fn de_units(r: &mut R) -> (res: DResult<Vec<Eid>>)
    requires
        old(r).wf(),
    ensures
        final(r).wf(),
        took_view(res, take_units(old(r)@), final(r)@),
{
    let ghost take = |b: Seq<u8>| take_eid(b);
    let n: u16 = r.u16()?;
    let ghost start = r@;
    let mut out: Vec<Eid> = Vec::new();
    let mut k: u16 = 0;
    while k < n
        invariant
            k <= n,
            r.wf(),
            take == (|b: Seq<u8>| take_eid(b)),
            take_units(old(r)@) == take_all(start, n as nat, take),
            take_all(start, n as nat, take) == (match take_all(r@, (n - k) as nat, take) {
                Some((xs, rest)) => Some((out@ + xs, rest)),
                None => None,
            }),
        decreases n - k,
    {
        let ghost before = r@;
        let ghost got = out@;
        let e: Eid = match Eid::de(r) {
            Ok(e) => e,
            Err(x) => {
                return Err(x);
            },
        };
        out.push(e);
        proof {
            assert(take(before) == Some((e, r@)));
            match take_all(r@, (n - k - 1) as nat, take) {
                Some((xs, rest)) => {
                    assert(got + (seq![e] + xs) =~= out@ + xs);
                },
                None => {},
            }
        }
        k = k + 1;
    }
    proof {
        assert(out@ + Seq::<Eid>::empty() =~= out@);
    }
    Ok(out)
}

fn copy_units(units: &Vec<Eid>) -> (r: Vec<Eid>)
    ensures
        r@ == units@,
{
    let mut r: Vec<Eid> = Vec::new();
    let mut i: usize = 0;
    while i < units.len()
        invariant
            i <= units@.len(),
            r@ == units@.take(i as int),
        decreases units@.len() - i,
    {
        r.push(units[i]);
        proof {
            assert(units@.take(i + 1) =~= units@.take(i as int).push(units@[i as int]));
        }
        i = i + 1;
    }
    proof {
        assert(units@.take(i as int) =~= units@);
    }
    r
}

impl Command {
    /// A copy with the same contents.
    pub fn dup(&self) -> (r: Command)
        ensures
            r@ == self@,
    {
        match self {
            Command::Join { name, color, key } => Command::Join { name: name.clone(), color: *color, key: *key },
            Command::Chat { text } => Command::Chat { text: text.clone() },
            Command::Move { units, to } => Command::Move { units: copy_units(units), to: *to },
            Command::AttackMove { units, to } => Command::AttackMove { units: copy_units(units), to: *to },
            Command::Attack { units, target } => Command::Attack { units: copy_units(units), target: *target },
            Command::Harvest { units, tile } => Command::Harvest { units: copy_units(units), tile: *tile },
            Command::Capture { unit, target } => Command::Capture { unit: *unit, target: *target },
            Command::Stop { units } => Command::Stop { units: copy_units(units) },
            Command::Sell { building } => Command::Sell { building: *building },
            Command::Train { building, kind } => Command::Train { building: *building, kind: *kind },
            Command::Build { kind, at } => Command::Build { kind: *kind, at: *at },
            Command::SetRally { building, at } => Command::SetRally { building: *building, at: *at },
            Command::FireNuke { silo, at } => Command::FireNuke { silo: *silo, at: *at },
            Command::GiveCredits { to, amount } => Command::GiveCredits { to: *to, amount: *amount },
            Command::Ally { with } => Command::Ally { with: *with },
        }
    }

    pub fn ser(&self, w: &mut W)
        ensures
            final(w)@ == old(w)@ + put_command(self@),
    {
        match self {
            Command::Join { name, color, key } => {
                w.u8(0);
                w.str(name.as_str());
                w.u8(*color);
                w.arr32(key);
            },
            Command::Chat { text } => {
                w.u8(1);
                w.str(text.as_str());
            },
            Command::Move { units, to } => {
                w.u8(2);
                ser_units(units, w);
                to.ser(w);
            },
            Command::AttackMove { units, to } => {
                w.u8(3);
                ser_units(units, w);
                to.ser(w);
            },
            Command::Attack { units, target } => {
                w.u8(4);
                ser_units(units, w);
                target.ser(w);
            },
            Command::Harvest { units, tile } => {
                w.u8(5);
                ser_units(units, w);
                tile.ser(w);
            },
            Command::Capture { unit, target } => {
                w.u8(6);
                unit.ser(w);
                target.ser(w);
            },
            Command::Stop { units } => {
                w.u8(7);
                ser_units(units, w);
            },
            Command::Sell { building } => {
                w.u8(8);
                building.ser(w);
            },
            Command::Train { building, kind } => {
                w.u8(9);
                building.ser(w);
                w.u8(*kind);
            },
            Command::Build { kind, at } => {
                w.u8(10);
                w.u8(*kind);
                at.ser(w);
            },
            Command::SetRally { building, at } => {
                w.u8(11);
                building.ser(w);
                at.ser(w);
            },
            Command::FireNuke { silo, at } => {
                w.u8(12);
                silo.ser(w);
                at.ser(w);
            },
            Command::GiveCredits { to, amount } => {
                w.u8(13);
                w.u8(*to);
                w.u32(*amount);
            },
            Command::Ally { with } => {
                w.u8(14);
                w.u8(*with);
            },
        }
        proof {
            assert(w@ =~= old(w)@ + put_command(self@));
        }
    }

    pub fn de(r: &mut R) -> (res: DResult<Command>)
        requires
            old(r).wf(),
        ensures
            final(r).wf(),
            took_view(res, take_command(old(r)@), final(r)@),
    {
        let tag: u8 = r.u8()?;
        match tag {
            0 => {
                let name: String = r.str()?;
                let color: u8 = r.u8()?;
                let key: PubKey = r.arr32()?;
                Ok(Command::Join { name, color, key })
            },
            1 => {
                let text: String = r.str()?;
                Ok(Command::Chat { text })
            },
            2 => {
                let units: Vec<Eid> = de_units(r)?;
                let to: Tp = Tp::de(r)?;
                Ok(Command::Move { units, to })
            },
            3 => {
                let units: Vec<Eid> = de_units(r)?;
                let to: Tp = Tp::de(r)?;
                Ok(Command::AttackMove { units, to })
            },
            4 => {
                let units: Vec<Eid> = de_units(r)?;
                let target: Eid = Eid::de(r)?;
                Ok(Command::Attack { units, target })
            },
            5 => {
                let units: Vec<Eid> = de_units(r)?;
                let tile: Tp = Tp::de(r)?;
                Ok(Command::Harvest { units, tile })
            },
            6 => {
                let unit: Eid = Eid::de(r)?;
                let target: Eid = Eid::de(r)?;
                Ok(Command::Capture { unit, target })
            },
            7 => {
                let units: Vec<Eid> = de_units(r)?;
                Ok(Command::Stop { units })
            },
            8 => {
                let building: Eid = Eid::de(r)?;
                Ok(Command::Sell { building })
            },
            9 => {
                let building: Eid = Eid::de(r)?;
                let kind: u8 = r.u8()?;
                Ok(Command::Train { building, kind })
            },
            10 => {
                let kind: u8 = r.u8()?;
                let at: Tp = Tp::de(r)?;
                Ok(Command::Build { kind, at })
            },
            11 => {
                let building: Eid = Eid::de(r)?;
                let at: Tp = Tp::de(r)?;
                Ok(Command::SetRally { building, at })
            },
            12 => {
                let silo: Eid = Eid::de(r)?;
                let at: Tp = Tp::de(r)?;
                Ok(Command::FireNuke { silo, at })
            },
            13 => {
                let to: u8 = r.u8()?;
                let amount: u32 = r.u32()?;
                Ok(Command::GiveCredits { to, amount })
            },
            14 => {
                let with: u8 = r.u8()?;
                Ok(Command::Ally { with })
            },
            _ => Err(DecodeErr),
        }
    }
}

/// Commands by their contents.
pub open spec fn commands_view(cs: Seq<Command>) -> Seq<CommandV> {
    Seq::new(cs.len(), |i: int| cs[i]@)
}

/// A copy of a list of commands.
pub fn dup_commands(cs: &Vec<Command>) -> (r: Vec<Command>)
    ensures
        commands_view(r@) == commands_view(cs@),
{
    let ghost all = commands_view(cs@);
    let mut r: Vec<Command> = Vec::new();
    let mut i: usize = 0;
    while i < cs.len()
        invariant
            i <= cs@.len(),
            all == commands_view(cs@),
            commands_view(r@) =~= all.take(i as int),
        decreases cs@.len() - i,
    {
        let ghost before = r@;
        r.push(cs[i].dup());
        proof {
            assert(commands_view(r@) =~= commands_view(before).push(cs@[i as int]@));
            assert(all.take(i + 1) =~= all.take(i as int).push(all[i as int]));
        }
        i = i + 1;
    }
    proof {
        assert(all.take(i as int) =~= all);
    }
    r
}

/// Write the count of the commands and the commands.
pub fn ser_commands(cs: &Vec<Command>, w: &mut W)
    ensures
        final(w)@ == old(w)@ + put_orders(commands_view(cs@)),
{
    let ghost put = |c: CommandV| put_command(c);
    let ghost all = commands_view(cs@);
    let n: usize = cs.len();
    w.u16((n % 0x1_0000) as u16);
    proof {
        crate::ser::le_mod(n as nat, 2);
    }
    let ghost base = w@;
    let mut i: usize = 0;
    proof {
        assert(all.skip(0) =~= all);
    }
    while i < cs.len()
        invariant
            i <= cs@.len(),
            all == commands_view(cs@),
            put == (|c: CommandV| put_command(c)),
            w@ + put_all(all.skip(i as int), put) == base + put_all(all, put),
        decreases cs@.len() - i,
    {
        let ghost before = w@;
        cs[i].ser(w);
        proof {
            let rest = all.skip(i as int);
            assert(rest.drop_first() =~= all.skip(i + 1));
            assert(rest[0] == cs@[i as int]@);
            concat_assoc(before, put_command(rest[0]), put_all(all.skip(i + 1), put));
        }
        i = i + 1;
    }
    proof {
        assert(w@ + put_all(all.skip(i as int), put) =~= w@);
        concat_assoc(old(w)@, le(all.len(), 2), put_all(all, put));
    }
}

/// Read a count and as many commands.
pub fn de_commands(r: &mut R) -> (res: DResult<Vec<Command>>)
    requires
        old(r).wf(),
    ensures
        final(r).wf(),
        match take_orders(old(r)@) {
            Some((cs, tail)) => res is Ok && commands_view(res->Ok_0@) == cs && final(r)@ == tail,
            None => res is Err,
        },
{
    let ghost take = |b: Seq<u8>| take_command(b);
    let n: u16 = r.u16()?;
    let ghost start = r@;
    let mut out: Vec<Command> = Vec::new();
    let mut k: u16 = 0;
    proof {
        assert(commands_view(out@) =~= Seq::<CommandV>::empty());
        match take_all(start, n as nat, take) {
            Some((xs, rest)) => {
                assert(commands_view(out@) + xs =~= xs);
            },
            None => {},
        }
    }
    while k < n
        invariant
            k <= n,
            r.wf(),
            take == (|b: Seq<u8>| take_command(b)),
            take_orders(old(r)@) == take_all(start, n as nat, take),
            take_all(start, n as nat, take) == (match take_all(r@, (n - k) as nat, take) {
                Some((xs, rest)) => Some((commands_view(out@) + xs, rest)),
                None => None,
            }),
        decreases n - k,
    {
        let ghost before = r@;
        let ghost got = out@;
        let c: Command = match Command::de(r) {
            Ok(c) => c,
            Err(x) => {
                return Err(x);
            },
        };
        out.push(c);
        proof {
            assert(commands_view(out@) =~= commands_view(got).push(c@));
            assert(take(before) == Some((c@, r@)));
            match take_all(r@, (n - k - 1) as nat, take) {
                Some((xs, rest)) => {
                    assert(commands_view(got) + (seq![c@] + xs) =~= commands_view(out@) + xs);
                },
                None => {},
            }
        }
        k = k + 1;
    }
    proof {
        assert(commands_view(out@) + Seq::<CommandV>::empty() =~= commands_view(out@));
    }
    Ok(out)
}

/// The commands of one player for one tick.
#[derive(Debug)]
pub struct Orders {
    pub list: Vec<Command>,
}

impl View for Orders {
    type V = Seq<CommandV>;

    open spec fn view(&self) -> Seq<CommandV> {
        commands_view(self.list@)
    }
}

impl Orders {
    pub fn empty() -> (r: Orders)
        ensures
            r@ == Seq::<CommandV>::empty(),
    {
        let r = Orders { list: Vec::new() };
        proof {
            assert(r@ =~= Seq::<CommandV>::empty());
        }
        r
    }

    pub fn push(&mut self, c: Command)
        ensures
            final(self)@ == old(self)@.push(c@),
    {
        self.list.push(c);
        proof {
            assert(self@ =~= old(self)@.push(c@));
        }
    }

    /// A copy with the same contents.
    pub fn dup(&self) -> (r: Orders)
        ensures
            r@ == self@,
    {
        Orders { list: dup_commands(&self.list) }
    }
}

pub open spec fn put_orders(cs: Seq<CommandV>) -> Seq<u8> {
    le(cs.len(), 2) + put_all(cs, |c: CommandV| put_command(c))
}

pub open spec fn take_orders(s: Seq<u8>) -> Option<(Seq<CommandV>, Seq<u8>)> {
    match take_le(s, 2) {
        Some((n, s1)) => take_all(s1, n, |b: Seq<u8>| take_command(b)),
        None => None,
    }
}

// ----------------------------------------------------------------------
// Laws
// ----------------------------------------------------------------------

/// Does every length in the command fit the width it is written with?
pub open spec fn command_fits(c: CommandV) -> bool {
    match c {
        CommandV::Join { name, color, key } => encode_utf8(name).len() < 0x1_0000_0000 && key.len() == 32,
        CommandV::Chat { text } => encode_utf8(text).len() < 0x1_0000_0000,
        CommandV::Move { units, to } => units.len() < 0x1_0000,
        CommandV::AttackMove { units, to } => units.len() < 0x1_0000,
        CommandV::Attack { units, target } => units.len() < 0x1_0000,
        CommandV::Harvest { units, tile } => units.len() < 0x1_0000,
        CommandV::Stop { units } => units.len() < 0x1_0000,
        _ => true,
    }
}

pub open spec fn orders_fit(cs: Seq<CommandV>) -> bool {
    cs.len() < 0x1_0000 && forall|i: int| 0 <= i < cs.len() ==> command_fits(#[trigger] cs[i])
}

proof fn eid_reads_back(e: Eid, rest: Seq<u8>)
    ensures
        take_eid(put_eid(e) + rest) == Some((e, rest)),
{
    pow256_values();
    assert(put_eid(e) + rest =~= le(e.idx as nat, 4) + (le(e.gen as nat, 4) + rest));
    take_put_le(e.idx as nat, 4, le(e.gen as nat, 4) + rest);
    take_put_le(e.gen as nat, 4, rest);
}

proof fn tp_reads_back(t: Tp, rest: Seq<u8>)
    ensures
        take_tp(put_tp(t) + rest) == Some((t, rest)),
{
    assert(put_tp(t) + rest =~= le(bits32(t.x), 4) + (le(bits32(t.y), 4) + rest));
    take_put_i32(t.x, le(bits32(t.y), 4) + rest);
    take_put_i32(t.y, rest);
}

proof fn units_read_back(us: Seq<Eid>, rest: Seq<u8>)
    requires
        us.len() < 0x1_0000,
    ensures
        take_units(put_units(us) + rest) == Some((us, rest)),
{
    pow256_values();
    let put = |e: Eid| put_eid(e);
    let take = |b: Seq<u8>| take_eid(b);
    assert(put_units(us) + rest =~= le(us.len(), 2) + (put_all(us, put) + rest));
    take_put_le(us.len(), 2, put_all(us, put) + rest);
    assert forall|i: int, r: Seq<u8>| 0 <= i < us.len() implies #[trigger] take(put(us[i]) + r) == Some((us[i], r)) by {
        eid_reads_back(us[i], r);
    }
    take_put_all(us, put, take, rest);
}

proof fn join_reads_back(name: Seq<char>, color: u8, key: Seq<u8>, rest: Seq<u8>)
    requires
        command_fits(CommandV::Join { name, color, key }),
    ensures
        take_join((put_text(name) + (seq![color] + key)) + rest) == Some((CommandV::Join { name, color, key }, rest)),
{
    concat_assoc(put_text(name), seq![color] + key, rest);
    concat_assoc(seq![color], key, rest);
    take_put_text(name, seq![color] + (key + rest));
    take_put_u8(color, key + rest);
    take_put_raw(key, rest);
}

proof fn units_tp_read_back(units: Seq<Eid>, to: Tp, rest: Seq<u8>)
    requires
        units.len() < 0x1_0000,
    ensures
        take_units_tp((put_units(units) + put_tp(to)) + rest) == Some(((units, to), rest)),
{
    concat_assoc(put_units(units), put_tp(to), rest);
    units_read_back(units, put_tp(to) + rest);
    tp_reads_back(to, rest);
}

proof fn eid_tp_read_back(e: Eid, at: Tp, rest: Seq<u8>)
    ensures
        take_eid_tp((put_eid(e) + put_tp(at)) + rest) == Some(((e, at), rest)),
{
    concat_assoc(put_eid(e), put_tp(at), rest);
    eid_reads_back(e, put_tp(at) + rest);
    tp_reads_back(at, rest);
}

/// Decoding an encoded command gives the command back and leaves what follows it.
#[verifier::rlimit(30)]
pub proof fn command_reads_back(c: CommandV, rest: Seq<u8>)
    requires
        command_fits(c),
    ensures
        take_command(put_command(c) + rest) == Some((c, rest)),
{
    match c {
        CommandV::Join { name, color, key } => {
            take_tagged(0, put_text(name) + (seq![color] + key), rest);
            join_reads_back(name, color, key, rest);
        },
        CommandV::Chat { text } => {
            take_tagged(1, put_text(text), rest);
            take_put_text(text, rest);
        },
        CommandV::Move { units, to } => {
            take_tagged(2, put_units(units) + put_tp(to), rest);
            units_tp_read_back(units, to, rest);
        },
        CommandV::AttackMove { units, to } => {
            take_tagged(3, put_units(units) + put_tp(to), rest);
            units_tp_read_back(units, to, rest);
        },
        CommandV::Attack { units, target } => {
            take_tagged(4, put_units(units) + put_eid(target), rest);
            concat_assoc(put_units(units), put_eid(target), rest);
            units_read_back(units, put_eid(target) + rest);
            eid_reads_back(target, rest);
        },
        CommandV::Harvest { units, tile } => {
            take_tagged(5, put_units(units) + put_tp(tile), rest);
            units_tp_read_back(units, tile, rest);
        },
        CommandV::Capture { unit, target } => {
            take_tagged(6, put_eid(unit) + put_eid(target), rest);
            concat_assoc(put_eid(unit), put_eid(target), rest);
            eid_reads_back(unit, put_eid(target) + rest);
            eid_reads_back(target, rest);
        },
        CommandV::Stop { units } => {
            take_tagged(7, put_units(units), rest);
            units_read_back(units, rest);
        },
        CommandV::Sell { building } => {
            take_tagged(8, put_eid(building), rest);
            eid_reads_back(building, rest);
        },
        CommandV::Train { building, kind } => {
            take_tagged(9, put_eid(building) + seq![kind], rest);
            concat_assoc(put_eid(building), seq![kind], rest);
            eid_reads_back(building, seq![kind] + rest);
            take_put_u8(kind, rest);
        },
        CommandV::Build { kind, at } => {
            take_tagged(10, seq![kind] + put_tp(at), rest);
            concat_assoc(seq![kind], put_tp(at), rest);
            take_put_u8(kind, put_tp(at) + rest);
            tp_reads_back(at, rest);
        },
        CommandV::SetRally { building, at } => {
            take_tagged(11, put_eid(building) + put_tp(at), rest);
            eid_tp_read_back(building, at, rest);
        },
        CommandV::FireNuke { silo, at } => {
            take_tagged(12, put_eid(silo) + put_tp(at), rest);
            eid_tp_read_back(silo, at, rest);
        },
        CommandV::GiveCredits { to, amount } => {
            pow256_values();
            take_tagged(13, seq![to] + le(amount as nat, 4), rest);
            concat_assoc(seq![to], le(amount as nat, 4), rest);
            take_put_u8(to, le(amount as nat, 4) + rest);
            take_put_le(amount as nat, 4, rest);
        },
        CommandV::Ally { with } => {
            take_tagged(14, seq![with], rest);
            take_put_u8(with, rest);
        },
    }
}

/// Decoding an encoded list of commands gives the list back.
pub proof fn orders_read_back(cs: Seq<CommandV>, rest: Seq<u8>)
    requires
        orders_fit(cs),
    ensures
        take_orders(put_orders(cs) + rest) == Some((cs, rest)),
{
    pow256_values();
    let put = |c: CommandV| put_command(c);
    let take = |b: Seq<u8>| take_command(b);
    assert(put_orders(cs) + rest =~= le(cs.len(), 2) + (put_all(cs, put) + rest));
    take_put_le(cs.len(), 2, put_all(cs, put) + rest);
    assert forall|i: int, r: Seq<u8>| 0 <= i < cs.len() implies #[trigger] take(put(cs[i]) + r) == Some((cs[i], r)) by {
        command_reads_back(cs[i], r);
    }
    take_put_all(cs, put, take, rest);
}

} // verus!
