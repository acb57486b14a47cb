//! What the client watches between two frames: our faction's losses, the night, and where units
//! stood. Observation only: nothing here reaches the simulation.

use crate::command::Eid;
use crate::console::Ent;
use crate::text::{dec, line, text_of};
use vstd::prelude::*;

verus! {

// ----------------------------------------------------------------------
// Short lists
// ----------------------------------------------------------------------

/// The list with one more; beyond `cap` the oldest leaves.
pub open spec fn capped<T>(v: Seq<T>, x: T, cap: nat) -> Seq<T> {
    let all = v.push(x);
    if all.len() > cap {
        all.drop_first()
    } else {
        all
    }
}

/// How many alerts are on screen at once.
pub const TOASTS: usize = 5;

/// How many order markers are on screen at once.
pub const MARKERS: usize = 24;

/// Put one more on a short list (alerts on screen, order markers): beyond `cap` the oldest
/// leaves.
pub fn push_capped<T>(v: &mut Vec<T>, x: T, cap: usize)
    ensures
        final(v)@ == capped(old(v)@, x, cap as nat),
{
    v.push(x);
    if v.len() > cap {
        let first: T = v.remove(0);
    }
    proof {
        assert(v@ =~= capped(old(v)@, x, cap as nat));
    }
}

// ----------------------------------------------------------------------
// Losses
// ----------------------------------------------------------------------

/// One of ours, as it was last seen.
#[derive(Clone, Copy, Debug, PartialEq, Eq, Structural)]
pub struct Watched {
    pub id: Eid,
    pub hp: i32,
    pub building: bool,
}

/// Ours that live.
pub open spec fn watched(ents: Seq<Ent>, me: u8) -> Seq<Watched>
    decreases ents.len(),
{
    if ents.len() == 0 {
        Seq::empty()
    } else {
        let head = watched(ents.drop_last(), me);
        let e = ents.last();
        if e.owner == me && e.hp > 0 {
            head.push(Watched { id: e.id, hp: e.hp, building: e.building })
        } else {
            head
        }
    }
}

pub open spec fn seen(w: Seq<Watched>, id: Eid) -> bool {
    exists|i: int| 0 <= i < w.len() && (#[trigger] w[i]).id == id
}

/// Was one of ours hurt between the two sightings?
pub open spec fn hurt(before: Seq<Watched>, now: Seq<Watched>) -> bool {
    exists|i: int, j: int|
        0 <= i < before.len() && 0 <= j < now.len() && (#[trigger] before[i]).id == (#[trigger] now[j]).id && now[j].hp < before[i].hp
}

/// How many of ours are gone, buildings or units.
pub open spec fn lost(before: Seq<Watched>, now: Seq<Watched>, building: bool) -> nat
    decreases before.len(),
{
    if before.len() == 0 {
        0
    } else {
        let w = before.last();
        lost(before.drop_last(), now, building) + if w.hp > 0 && w.building == building && !seen(now, w.id) {
            1nat
        } else {
            0nat
        }
    }
}

/// An alert.
#[derive(Clone, Copy, Debug, PartialEq, Eq, Structural)]
pub enum Alert {
    /// with a desktop notification, if the player has been away
    UnderAttack { notify: bool },
    BuildingsLost(u64),
    UnitsLost(u64),
    LowPower,
    Starving,
    /// with a desktop notification
    Eliminated { notify: bool },
}

/// What our settlement is like.
#[derive(Clone, Copy, Debug, PartialEq, Eq, Structural)]
pub struct Plight {
    pub low_power: bool,
    pub starving: bool,
    pub defeated: bool,
}

/// What decides whether an attack is announced.
#[derive(Clone, Copy, Debug, PartialEq, Eq, Structural)]
pub struct Ready {
    /// the last alert of an attack is long enough ago
    pub alert: bool,
    /// the last desktop notification is long enough ago
    pub notify: bool,
    /// the player gave no input for long
    pub idle: bool,
    /// nobody plays
    pub demo: bool,
}

#[derive(Debug)]
pub struct Watch {
    pub ours: Vec<Watched>,
    pub plight: Plight,
}

#[verifier::ext_equal]
pub struct WatchV {
    pub ours: Seq<Watched>,
    pub plight: Plight,
}

impl View for Watch {
    type V = WatchV;

    open spec fn view(&self) -> WatchV {
        WatchV { ours: self.ours@, plight: self.plight }
    }
}

pub open spec fn raised(on: bool, a: Alert) -> Seq<Alert> {
    if on {
        seq![a]
    } else {
        Seq::empty()
    }
}

/// The alerts between two sightings: an attack (not too often), buildings lost, three units and
/// more lost, and each plight as it begins.
pub open spec fn alerts_of(w: WatchV, ents: Seq<Ent>, me: u8, p: Plight, r: Ready) -> Seq<Alert> {
    let now = watched(ents, me);
    let buildings = lost(w.ours, now, true);
    let units = lost(w.ours, now, false);
    raised(
        hurt(w.ours, now) && r.alert,
        Alert::UnderAttack { notify: !r.demo && r.idle && r.notify },
    ) + raised(buildings > 0, Alert::BuildingsLost(buildings as u64)) + raised(
        units >= 3,
        Alert::UnitsLost(units as u64),
    ) + raised(p.low_power && !w.plight.low_power, Alert::LowPower) + raised(
        p.starving && !w.plight.starving,
        Alert::Starving,
    ) + raised(p.defeated && !w.plight.defeated, Alert::Eliminated { notify: !r.demo })
}

fn sight(ents: &Vec<Ent>, me: u8) -> (r: Vec<Watched>)
    ensures
        r@ == watched(ents@, me),
{
    let mut out: Vec<Watched> = Vec::new();
    let mut i: usize = 0;
    while i < ents.len()
        invariant
            i <= ents@.len(),
            out@ == watched(ents@.take(i as int), me),
        decreases ents@.len() - i,
    {
        proof {
            assert(ents@.take(i + 1).drop_last() =~= ents@.take(i as int));
        }
        if ents[i].owner == me && ents[i].hp > 0 {
            out.push(Watched { id: ents[i].id, hp: ents[i].hp, building: ents[i].building });
        }
        i = i + 1;
    }
    proof {
        assert(ents@.take(i as int) =~= ents@);
    }
    out
}

fn is_seen(w: &Vec<Watched>, id: Eid) -> (r: bool)
    ensures
        r == seen(w@, id),
{
    let mut i: usize = 0;
    while i < w.len()
        invariant
            i <= w@.len(),
            forall|k: int| 0 <= k < i ==> (#[trigger] w@[k]).id != id,
        decreases w@.len() - i,
    {
        if w[i].id == id {
            return true;
        }
        i = i + 1;
    }
    false
}

fn is_hurt(before: &Vec<Watched>, now: &Vec<Watched>) -> (r: bool)
    ensures
        r == hurt(before@, now@),
{
    let mut i: usize = 0;
    while i < before.len()
        invariant
            i <= before@.len(),
            forall|a: int, b: int|
                0 <= a < i && 0 <= b < now@.len() ==> !((#[trigger] before@[a]).id == (#[trigger] now@[b]).id && now@[b].hp
                    < before@[a].hp),
        decreases before@.len() - i,
    {
        let mut j: usize = 0;
        while j < now.len()
            invariant
                i < before@.len(),
                j <= now@.len(),
                forall|b: int|
                    0 <= b < j ==> !(before@[i as int].id == (#[trigger] now@[b]).id && now@[b].hp < before@[i as int].hp),
            decreases now@.len() - j,
        {
            if before[i].id == now[j].id && now[j].hp < before[i].hp {
                proof {
                    assert(before@[i as int].id == now@[j as int].id);
                }
                return true;
            }
            j = j + 1;
        }
        i = i + 1;
    }
    false
}

fn count_lost(before: &Vec<Watched>, now: &Vec<Watched>, building: bool) -> (n: u64)
    ensures
        n == lost(before@, now@, building),
{
    let mut n: u64 = 0;
    let mut i: usize = 0;
    while i < before.len()
        invariant
            i <= before@.len(),
            n <= i,
            n == lost(before@.take(i as int), now@, building),
        decreases before@.len() - i,
    {
        proof {
            assert(before@.take(i + 1).drop_last() =~= before@.take(i as int));
        }
        if before[i].hp > 0 && before[i].building == building && !is_seen(now, before[i].id) {
            n = n + 1;
        }
        i = i + 1;
    }
    proof {
        assert(before@.take(i as int) =~= before@);
    }
    n
}

fn raise(out: &mut Vec<Alert>, on: bool, a: Alert)
    ensures
        final(out)@ == old(out)@ + raised(on, a),
{
    if on {
        out.push(a);
    }
    proof {
        assert(out@ =~= old(out)@ + raised(on, a));
    }
}

impl Watch {
    pub fn new() -> (w: Watch)
        ensures
            w@ == (WatchV {
                ours: Seq::empty(),
                plight: Plight { low_power: false, starving: false, defeated: false },
            }),
    {
        let w = Watch { ours: Vec::new(), plight: Plight { low_power: false, starving: false, defeated: false } };
        proof {
            assert(w.ours@ =~= Seq::empty());
        }
        w
    }

    /// Watch our own faction for damage, losses, power, hunger and defeat.
    pub fn check_alerts(&mut self, ents: &Vec<Ent>, me: u8, p: Plight, r: Ready) -> (out: Vec<Alert>)
        ensures
            out@ == alerts_of(old(self)@, ents@, me, p, r),
            final(self)@ == (WatchV { ours: watched(ents@, me), plight: p }),
    {
        let now: Vec<Watched> = sight(ents, me);
        let buildings: u64 = count_lost(&self.ours, &now, true);
        let units: u64 = count_lost(&self.ours, &now, false);
        let attacked: bool = is_hurt(&self.ours, &now);
        let mut out: Vec<Alert> = Vec::new();
        proof {
            assert(out@ =~= Seq::<Alert>::empty());
        }
        raise(&mut out, attacked && r.alert, Alert::UnderAttack { notify: !r.demo && r.idle && r.notify });
        proof {
            let a = raised(attacked && r.alert, Alert::UnderAttack { notify: !r.demo && r.idle && r.notify });
            assert(Seq::<Alert>::empty() + a =~= a);
        }
        raise(&mut out, buildings > 0, Alert::BuildingsLost(buildings));
        raise(&mut out, units >= 3, Alert::UnitsLost(units));
        raise(&mut out, p.low_power && !self.plight.low_power, Alert::LowPower);
        raise(&mut out, p.starving && !self.plight.starving, Alert::Starving);
        raise(&mut out, p.defeated && !self.plight.defeated, Alert::Eliminated { notify: !r.demo });
        self.ours = now;
        self.plight = p;
        out
    }
}

/// The words of an alert.
pub open spec fn alert_text(a: Alert) -> Seq<char> {
    match a {
        Alert::UnderAttack { notify } => "Your base is under attack!"@,
        Alert::BuildingsLost(n) => ""@ + dec(n as nat) + " building(s) destroyed!"@,
        Alert::UnitsLost(n) => ""@ + dec(n as nat) + " units lost in battle"@,
        Alert::LowPower => "Low power - production slowed"@,
        Alert::Starving => "Your army is starving! Build Farms or hunt deer"@,
        Alert::Eliminated { notify } => "You have been eliminated"@,
    }
}

/// The words of an alert.
pub fn words_of(a: Alert) -> (r: String)
    ensures
        r@ == alert_text(a),
{
    match a {
        Alert::UnderAttack { notify: _ } => text_of("Your base is under attack!"),
        Alert::BuildingsLost(n) => line("", n, " building(s) destroyed!"),
        Alert::UnitsLost(n) => line("", n, " units lost in battle"),
        Alert::LowPower => text_of("Low power - production slowed"),
        Alert::Starving => text_of("Your army is starving! Build Farms or hunt deer"),
        Alert::Eliminated { notify: _ } => text_of("You have been eliminated"),
    }
}

// ----------------------------------------------------------------------
// Night and day
// ----------------------------------------------------------------------

/// The words as night falls or dawn breaks.
pub open spec fn dusk_text(night: bool, blood: bool, n: nat) -> Seq<char> {
    if !night {
        "Dawn breaks  —  the dark recedes."@
    } else if blood {
        "BLOOD MOON  —  Night "@ + dec(n) + ".  The horde comes from every side."@
    } else {
        "Night "@ + dec(n) + " falls  —  the dark stirs."@
    }
}

/// Announce nightfall, blood moons and dawn, as they come.
pub fn announce(was_night: &mut bool, night: bool, blood: bool, n: u32) -> (r: Option<String>)
    ensures
        *final(was_night) == night,
        r is Some <==> *old(was_night) != night,
        r matches Some(s) ==> s@ == dusk_text(night, blood, n as nat),
{
    if *was_night == night {
        return None;
    }
    *was_night = night;
    if !night {
        Some(text_of("Dawn breaks  —  the dark recedes."))
    } else if blood {
        Some(line("BLOOD MOON  —  Night ", n as u64, ".  The horde comes from every side."))
    } else {
        Some(line("Night ", n as u64, " falls  —  the dark stirs."))
    }
}

// ----------------------------------------------------------------------
// Anchors
// ----------------------------------------------------------------------

/// A position on the field, in the simulation's fixed point.
#[derive(Clone, Copy, Debug, PartialEq, Eq, Structural)]
pub struct Pos {
    pub x: i32,
    pub y: i32,
}

/// Where a unit was, and where it is: what is drawn lies between the two. Keyed by slot and
/// generation, so that a reused slot can't inherit the dead occupant's position.
#[derive(Clone, Copy, Debug, PartialEq, Eq, Structural)]
pub struct Anchor {
    pub id: Eid,
    pub from: Pos,
    pub to: Pos,
}

/// A unit of the field.
#[derive(Clone, Copy, Debug, PartialEq, Eq, Structural)]
pub struct Placed {
    pub id: Eid,
    pub pos: Pos,
}

/// The anchors once a unit was seen at a position.
pub open spec fn moved(s: Seq<Anchor>, u: Placed) -> Seq<Anchor>
    decreases s.len(),
{
    if s.len() == 0 {
        seq![Anchor { id: u.id, from: u.pos, to: u.pos }]
    } else if s[0].id == u.id {
        seq![
            if s[0].to != u.pos {
                Anchor { from: s[0].to, to: u.pos, ..s[0] }
            } else {
                s[0]
            },
        ] + s.drop_first()
    } else {
        seq![s[0]] + moved(s.drop_first(), u)
    }
}

pub open spec fn moved_all(s: Seq<Anchor>, us: Seq<Placed>) -> Seq<Anchor>
    decreases us.len(),
{
    if us.len() == 0 {
        s
    } else {
        moved(moved_all(s, us.drop_last()), us.last())
    }
}

pub open spec fn stands(us: Seq<Placed>, id: Eid) -> bool {
    exists|i: int| 0 <= i < us.len() && (#[trigger] us[i]).id == id
}

/// The anchors of units that still stand.
pub open spec fn standing(s: Seq<Anchor>, us: Seq<Placed>) -> Seq<Anchor>
    decreases s.len(),
{
    if s.len() == 0 {
        Seq::empty()
    } else {
        let head = standing(s.drop_last(), us);
        if stands(us, s.last().id) {
            head.push(s.last())
        } else {
            head
        }
    }
}

/// The anchors after some ticks: each unit's shifts as it moves; once far more are kept than
/// units stand, those of the gone are dropped.
pub open spec fn anchored(s: Seq<Anchor>, us: Seq<Placed>) -> Seq<Anchor> {
    let all = moved_all(s, us);
    if all.len() > us.len() + 32 {
        standing(all, us)
    } else {
        all
    }
}

/// The anchor of a unit.
pub open spec fn anchor_of(s: Seq<Anchor>, id: Eid) -> Option<Anchor>
    decreases s.len(),
{
    if s.len() == 0 {
        None
    } else if s[0].id == id {
        Some(s[0])
    } else {
        anchor_of(s.drop_first(), id)
    }
}

/// Where units were and are.
#[derive(Debug)]
pub struct Anchors {
    pub list: Vec<Anchor>,
    /// was the field the netherealm?
    pub nether: bool,
}

impl Anchors {
    pub fn new() -> (a: Anchors)
        ensures
            a.list@ == Seq::<Anchor>::empty(),
            !a.nether,
    {
        Anchors { list: Vec::new(), nether: false }
    }

    /// Crossing realms replaces every entity in one tick: all anchors go. Tells whether the
    /// realm changed, and the selection dangles.
    pub fn enter(&mut self, nether: bool) -> (changed: bool)
        ensures
            changed == (nether != old(self).nether),
            final(self).nether == nether,
            final(self).list@ == if changed {
                Seq::empty()
            } else {
                old(self).list@
            },
    {
        let changed: bool = nether != self.nether;
        if changed {
            self.nether = nether;
            self.list = Vec::new();
            proof {
                assert(self.list@ =~= Seq::empty());
            }
        }
        changed
    }

    fn place(&mut self, u: Placed)
        ensures
            final(self).list@ == moved(old(self).list@, u),
            final(self).nether == old(self).nether,
    {
        let ghost s0 = self.list@;
        let mut i: usize = 0;
        proof {
            assert(s0.take(0) + moved(s0.skip(0), u) =~= moved(s0, u)) by {
                assert(s0.skip(0) =~= s0);
            }
        }
        while i < self.list.len()
            invariant
                i <= self.list@.len(),
                self.list@ == s0,
                s0 == old(self).list@,
                self.nether == old(self).nether,
                s0.take(i as int) + moved(s0.skip(i as int), u) == moved(s0, u),
            decreases self.list@.len() - i,
        {
            let ghost rest = s0.skip(i as int);
            proof {
                assert(rest.drop_first() =~= s0.skip(i + 1));
                assert(rest[0] == s0[i as int]);
            }
            let a: Anchor = self.list[i];
            if a.id == u.id {
                if a.to != u.pos {
                    self.list[i] = Anchor { id: a.id, from: a.to, to: u.pos };
                }
                proof {
                    assert(self.list@ =~= s0.take(i as int) + moved(rest, u));
                }
                return;
            }
            proof {
                assert(s0.take(i + 1) + moved(s0.skip(i + 1), u) =~= s0.take(i as int) + moved(rest, u));
            }
            i = i + 1;
        }
        self.list.push(Anchor { id: u.id, from: u.pos, to: u.pos });
        proof {
            assert(s0.skip(i as int).len() == 0);
            assert(self.list@ =~= s0.take(i as int) + moved(s0.skip(i as int), u));
        }
    }

    /// Shift the anchors to where the units are now.
    pub fn shift(&mut self, units: &Vec<Placed>)
        ensures
            final(self).list@ == anchored(old(self).list@, units@),
            final(self).nether == old(self).nether,
    {
        let ghost s0 = self.list@;
        let mut i: usize = 0;
        while i < units.len()
            invariant
                i <= units@.len(),
                self.list@ == moved_all(s0, units@.take(i as int)),
                self.nether == old(self).nether,
            decreases units@.len() - i,
        {
            proof {
                assert(units@.take(i + 1).drop_last() =~= units@.take(i as int));
            }
            self.place(units[i]);
            i = i + 1;
        }
        proof {
            assert(units@.take(i as int) =~= units@);
        }
        let n: usize = self.list.len();
        let m: usize = units.len();
        if n > m && n - m > 32 {
            let mut kept: Vec<Anchor> = Vec::new();
            let mut k: usize = 0;
            while k < self.list.len()
                invariant
                    k <= self.list@.len(),
                    self.nether == old(self).nether,
                    self.list@ == moved_all(s0, units@),
                    kept@ == standing(self.list@.take(k as int), units@),
                decreases self.list@.len() - k,
            {
                proof {
                    assert(self.list@.take(k + 1).drop_last() =~= self.list@.take(k as int));
                }
                if is_standing(units, self.list[k].id) {
                    kept.push(self.list[k]);
                }
                k = k + 1;
            }
            proof {
                assert(self.list@.take(k as int) =~= self.list@);
            }
            self.list = kept;
        }
    }

    /// Where a unit is drawn between: its anchor, if it still is where the anchor says.
    pub fn span(&self, id: Eid, pos: Pos) -> (r: Option<(Pos, Pos)>)
        ensures
            r == match anchor_of(self.list@, id) {
                Some(a) => if a.to == pos {
                    Some((a.from, a.to))
                } else {
                    None
                },
                None => None,
            },
    {
        let mut i: usize = 0;
        proof {
            assert(self.list@.skip(0) =~= self.list@);
        }
        while i < self.list.len()
            invariant
                i <= self.list@.len(),
                anchor_of(self.list@.skip(i as int), id) == anchor_of(self.list@, id),
            decreases self.list@.len() - i,
        {
            proof {
                assert(self.list@.skip(i as int).drop_first() =~= self.list@.skip(i + 1));
            }
            if self.list[i].id == id {
                return if self.list[i].to == pos { Some((self.list[i].from, self.list[i].to)) } else { None };
            }
            i = i + 1;
        }
        None
    }
}

fn is_standing(units: &Vec<Placed>, id: Eid) -> (r: bool)
    ensures
        r == stands(units@, id),
{
    let mut i: usize = 0;
    while i < units.len()
        invariant
            i <= units@.len(),
            forall|k: int| 0 <= k < i ==> (#[trigger] units@[k]).id != id,
        decreases units@.len() - i,
    {
        if units[i].id == id {
            return true;
        }
        i = i + 1;
    }
    false
}

// ----------------------------------------------------------------------
// Laws
// ----------------------------------------------------------------------

/// A field that stands still raises no alert of an attack or a loss.
pub proof fn peace_is_quiet(ents: Seq<Ent>, me: u8, p: Plight, r: Ready)
    requires
        forall|i: int, j: int| 0 <= i < j < ents.len() ==> (#[trigger] ents[i]).id != (#[trigger] ents[j]).id,
    ensures
        alerts_of(WatchV { ours: watched(ents, me), plight: p }, ents, me, p, r).len() == 0,
{
    let w = watched(ents, me);
    ours_are_distinct(ents, me);
    assert(!hurt(w, w));
    assert(w =~= w.take(w.len() as int));
    none_lost(w, w, true);
    none_lost(w, w, false);
}

proof fn ours_are_distinct(ents: Seq<Ent>, me: u8)
    requires
        forall|i: int, j: int| 0 <= i < j < ents.len() ==> (#[trigger] ents[i]).id != (#[trigger] ents[j]).id,
    ensures
        forall|i: int, j: int|
            0 <= i < j < watched(ents, me).len() ==> (#[trigger] watched(ents, me)[i]).id != (#[trigger] watched(ents, me)[j]).id,
        forall|i: int|
            0 <= i < watched(ents, me).len() ==> exists|k: int|
                0 <= k < ents.len() && (#[trigger] ents[k]).id == (#[trigger] watched(ents, me)[i]).id,
    decreases ents.len(),
{
    if ents.len() > 0 {
        let es = ents.drop_last();
        assert forall|i: int, j: int| 0 <= i < j < es.len() implies (#[trigger] es[i]).id != (#[trigger] es[j]).id by {
            assert(ents[i].id != ents[j].id);
        }
        ours_are_distinct(es, me);
        let head = watched(es, me);
        let all = watched(ents, me);
        assert forall|i: int| 0 <= i < all.len() implies exists|k: int|
            0 <= k < ents.len() && (#[trigger] ents[k]).id == (#[trigger] all[i]).id by {
            if i < head.len() {
                let k = choose|k: int| 0 <= k < es.len() && (#[trigger] es[k]).id == head[i].id;
                assert(ents[k].id == all[i].id);
            } else {
                assert(ents[ents.len() - 1].id == all[i].id);
            }
        }
        assert forall|i: int, j: int| 0 <= i < j < all.len() implies (#[trigger] all[i]).id != (#[trigger] all[j]).id by {
            assert(all[i] == head[i]);
            if j < head.len() {
                assert(all[j] == head[j]);
            } else {
                let k = choose|k: int| 0 <= k < es.len() && (#[trigger] es[k]).id == head[i].id;
                assert(ents[k].id != ents[ents.len() - 1].id);
            }
        }
    }
}

proof fn none_lost(part: Seq<Watched>, w: Seq<Watched>, building: bool)
    requires
        part.len() <= w.len(),
        part == w.take(part.len() as int),
    ensures
        lost(part, w, building) == 0,
    decreases part.len(),
{
    if part.len() > 0 {
        let n = part.len() - 1;
        assert(part.drop_last() =~= w.take(n));
        none_lost(part.drop_last(), w, building);
        assert(w[n] == part.last());
        assert(seen(w, part.last().id));
    }
}

/// A unit that was seen at a position is drawn up to that position, whatever else moves after
/// it.
pub proof fn units_are_drawn_where_they_are(s: Seq<Anchor>, u: Placed)
    ensures
        anchor_of(moved(s, u), u.id) matches Some(a) && a.to == u.pos,
        forall|id: Eid| id != u.id ==> #[trigger] anchor_of(moved(s, u), id) == anchor_of(s, id),
    decreases s.len(),
{
    let t = moved(s, u);
    if s.len() > 0 && s[0].id != u.id {
        units_are_drawn_where_they_are(s.drop_first(), u);
        assert(t.drop_first() =~= moved(s.drop_first(), u));
        assert(t[0] == s[0]);
    } else if s.len() > 0 {
        assert(t.drop_first() =~= s.drop_first());
    } else {
        assert(t.drop_first() =~= s);
    }
    assert forall|id: Eid| id != u.id implies #[trigger] anchor_of(t, id) == anchor_of(s, id) by {
        if s.len() > 0 {
            assert(anchor_of(t.drop_first(), id) == anchor_of(s.drop_first(), id)) by {
                if s[0].id != u.id {
                    assert(anchor_of(moved(s.drop_first(), u), id) == anchor_of(s.drop_first(), id));
                }
            }
        } else {
            assert(anchor_of(t.drop_first(), id) is None);
        }
    }
}

} // verus!
