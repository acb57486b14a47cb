//! The player's console: selection, modes, hotkeys and clicks, and the orders they come to.
//!
//! A frame's input goes in as plain values (which keys were pressed, what is under the mouse);
//! what comes out is orders for the session and things to show. The world is read as a list of
//! entities and never changed.

use crate::chat::{erase_char, say, spoken, type_char, typed, untyped};
use crate::command::{Command, CommandV, Eid, Tp};
use vstd::prelude::*;

verus! {

// ----------------------------------------------------------------------
// The world, as far as the console reads it
// ----------------------------------------------------------------------

/// An entity on the field.
#[derive(Clone, Copy, Debug, PartialEq, Eq, Structural)]
pub struct Ent {
    pub id: Eid,
    pub owner: u8,
    pub kind: u8,
    pub building: bool,
    pub unit: bool,
    pub infantry: bool,
    pub engineer: bool,
    pub harvester: bool,
    /// a missile silo
    pub silo: bool,
    /// repairs vehicles
    pub depot: bool,
    /// heals infantry
    pub clinic: bool,
    /// can deal damage
    pub armed: bool,
    pub hp: i32,
    pub done: bool,
    /// a silo that is charged
    pub charged: bool,
}

/// The entity with the handle.
pub open spec fn ent_of(ents: Seq<Ent>, id: Eid) -> Option<Ent>
    decreases ents.len(),
{
    if ents.len() == 0 {
        None
    } else if ents[0].id == id {
        Some(ents[0])
    } else {
        ent_of(ents.drop_first(), id)
    }
}

/// What the console looks for in an entity.
#[derive(Clone, Copy, Debug, PartialEq, Eq, Structural)]
pub enum Want {
    /// ours, and alive
    Living,
    Unit,
    Engineer,
    Armed,
    Vehicle,
    Infantry,
    Harvester,
    /// a building of ours that is finished
    Sellable,
    Silo,
    /// a silo of ours that is finished and charged
    ReadySilo,
    /// a building of ours
    OwnBuilding,
}

pub open spec fn fits(e: Ent, w: Want, me: u8) -> bool {
    match w {
        Want::Living => e.owner == me && e.hp > 0,
        Want::Unit => e.unit,
        Want::Engineer => e.engineer,
        Want::Armed => e.armed,
        Want::Vehicle => e.unit && !e.infantry,
        Want::Infantry => e.infantry,
        Want::Harvester => e.harvester,
        Want::Sellable => e.building && e.owner == me && e.done,
        Want::Silo => e.silo,
        Want::ReadySilo => e.owner == me && e.silo && e.done && e.charged,
        Want::OwnBuilding => e.building && e.owner == me,
    }
}

/// Does the handle stand for an entity that fits?
pub open spec fn is_such(ents: Seq<Ent>, id: Eid, w: Want, me: u8) -> bool {
    ent_of(ents, id) matches Some(e) && fits(e, w, me)
}

/// The handles that stand for entities that fit, in their order.
pub open spec fn such(ents: Seq<Ent>, ids: Seq<Eid>, w: Want, me: u8) -> Seq<Eid>
    decreases ids.len(),
{
    if ids.len() == 0 {
        Seq::empty()
    } else {
        let head = such(ents, ids.drop_last(), w, me);
        if is_such(ents, ids.last(), w, me) {
            head.push(ids.last())
        } else {
            head
        }
    }
}

/// The first handle that stands for an entity that fits.
pub open spec fn first_such(ents: Seq<Ent>, ids: Seq<Eid>, w: Want, me: u8) -> Option<Eid> {
    let all = such(ents, ids, w, me);
    if all.len() == 0 {
        None
    } else {
        Some(all[0])
    }
}

/// The handles but for some.
pub open spec fn without(ids: Seq<Eid>, out: Seq<Eid>) -> Seq<Eid>
    decreases ids.len(),
{
    if ids.len() == 0 {
        Seq::empty()
    } else {
        let head = without(ids.drop_last(), out);
        if out.contains(ids.last()) {
            head
        } else {
            head.push(ids.last())
        }
    }
}

/// The selection with some handles joined, each once.
pub open spec fn joined_by(sel: Seq<Eid>, more: Seq<Eid>) -> Seq<Eid>
    decreases more.len(),
{
    if more.len() == 0 {
        sel
    } else {
        let head = joined_by(sel, more.drop_last());
        if head.contains(more.last()) {
            head
        } else {
            head.push(more.last())
        }
    }
}

fn find(ents: &Vec<Ent>, id: Eid) -> (r: Option<Ent>)
    ensures
        r == ent_of(ents@, id),
{
    let mut i: usize = 0;
    proof {
        assert(ents@.skip(0) =~= ents@);
    }
    while i < ents.len()
        invariant
            i <= ents@.len(),
            ent_of(ents@.skip(i as int), id) == ent_of(ents@, id),
        decreases ents@.len() - i,
    {
        proof {
            assert(ents@.skip(i as int).drop_first() =~= ents@.skip(i + 1));
        }
        if ents[i].id == id {
            return Some(ents[i]);
        }
        i = i + 1;
    }
    None
}

fn fit(e: &Ent, w: Want, me: u8) -> (r: bool)
    ensures
        r == fits(*e, w, me),
{
    match w {
        Want::Living => e.owner == me && e.hp > 0,
        Want::Unit => e.unit,
        Want::Engineer => e.engineer,
        Want::Armed => e.armed,
        Want::Vehicle => e.unit && !e.infantry,
        Want::Infantry => e.infantry,
        Want::Harvester => e.harvester,
        Want::Sellable => e.building && e.owner == me && e.done,
        Want::Silo => e.silo,
        Want::ReadySilo => e.owner == me && e.silo && e.done && e.charged,
        Want::OwnBuilding => e.building && e.owner == me,
    }
}

fn check(ents: &Vec<Ent>, id: Eid, w: Want, me: u8) -> (r: bool)
    ensures
        r == is_such(ents@, id, w, me),
{
    match find(ents, id) {
        Some(e) => fit(&e, w, me),
        None => false,
    }
}

fn pick(ents: &Vec<Ent>, ids: &Vec<Eid>, w: Want, me: u8) -> (r: Vec<Eid>)
    ensures
        r@ == such(ents@, ids@, w, me),
{
    let mut out: Vec<Eid> = Vec::new();
    let mut i: usize = 0;
    while i < ids.len()
        invariant
            i <= ids@.len(),
            out@ == such(ents@, ids@.take(i as int), w, me),
        decreases ids@.len() - i,
    {
        proof {
            assert(ids@.take(i + 1).drop_last() =~= ids@.take(i as int));
        }
        if check(ents, ids[i], w, me) {
            out.push(ids[i]);
        }
        i = i + 1;
    }
    proof {
        assert(ids@.take(i as int) =~= ids@);
    }
    out
}

fn holds(ids: &Vec<Eid>, id: Eid) -> (r: bool)
    ensures
        r == ids@.contains(id),
{
    let mut i: usize = 0;
    while i < ids.len()
        invariant
            i <= ids@.len(),
            forall|k: int| 0 <= k < i ==> ids@[k] != id,
        decreases ids@.len() - i,
    {
        if ids[i] == id {
            proof {
                assert(ids@[i as int] == id);
            }
            return true;
        }
        i = i + 1;
    }
    false
}

fn drop_all(ids: &Vec<Eid>, gone: &Vec<Eid>) -> (r: Vec<Eid>)
    ensures
        r@ == without(ids@, gone@),
{
    let mut out: Vec<Eid> = Vec::new();
    let mut i: usize = 0;
    while i < ids.len()
        invariant
            i <= ids@.len(),
            out@ == without(ids@.take(i as int), gone@),
        decreases ids@.len() - i,
    {
        proof {
            assert(ids@.take(i + 1).drop_last() =~= ids@.take(i as int));
        }
        if !holds(gone, ids[i]) {
            out.push(ids[i]);
        }
        i = i + 1;
    }
    proof {
        assert(ids@.take(i as int) =~= ids@);
    }
    out
}

fn copy_ids(ids: &Vec<Eid>) -> (r: Vec<Eid>)
    ensures
        r@ == ids@,
{
    let mut out: Vec<Eid> = Vec::new();
    let mut i: usize = 0;
    while i < ids.len()
        invariant
            i <= ids@.len(),
            out@ == ids@.take(i as int),
        decreases ids@.len() - i,
    {
        out.push(ids[i]);
        proof {
            assert(ids@.take(i + 1) =~= ids@.take(i as int).push(ids@[i as int]));
        }
        i = i + 1;
    }
    proof {
        assert(ids@.take(i as int) =~= ids@);
    }
    out
}

// ----------------------------------------------------------------------
// What comes out of a frame
// ----------------------------------------------------------------------

/// The colour of an order's marker.
#[derive(Clone, Copy, Debug, PartialEq, Eq, Structural)]
pub enum Hue {
    Move,
    Attack,
    Capture,
    Advance,
    Repair,
    Heal,
    Ore,
    Wood,
    Stone,
    Rally,
    Nuke,
}

/// A word to the player.
#[derive(Clone, Copy, Debug, PartialEq, Eq, Structural)]
pub enum Notice {
    /// SELECT NUKE TARGET (right-click to cancel)
    PickTarget,
    /// silo still charging
    StillCharging,
    /// to repairs
    ToRepairs,
    /// to the med bay
    ToMedBay,
}

/// What a frame's input leads to.
#[derive(Debug)]
pub enum Effect {
    /// an order for the session
    Order(Command),
    /// a marker on the ground
    Mark(Tp, Hue),
    Say(Notice),
    /// travel to a region of the map
    Travel(usize),
    /// save the world now
    Save,
    /// solo testing only: straight into the netherealm
    Descend,
    /// show the base
    Center,
    /// move the camera to the place picked on the minimap
    Jump,
    /// a selection was made
    Blip,
}

#[verifier::ext_equal]
pub enum EffectV {
    Order(CommandV),
    Mark(Tp, Hue),
    Say(Notice),
    Travel(usize),
    Save,
    Descend,
    Center,
    Jump,
    Blip,
}

impl View for Effect {
    type V = EffectV;

    open spec fn view(&self) -> EffectV {
        match *self {
            Effect::Order(c) => EffectV::Order(c@),
            Effect::Mark(t, h) => EffectV::Mark(t, h),
            Effect::Say(n) => EffectV::Say(n),
            Effect::Travel(i) => EffectV::Travel(i),
            Effect::Save => EffectV::Save,
            Effect::Descend => EffectV::Descend,
            Effect::Center => EffectV::Center,
            Effect::Jump => EffectV::Jump,
            Effect::Blip => EffectV::Blip,
        }
    }
}

pub open spec fn effects_view(v: Seq<Effect>) -> Seq<EffectV> {
    Seq::new(v.len(), |i: int| v[i]@)
}

fn emit(out: &mut Vec<Effect>, e: Effect)
    ensures
        effects_view(final(out)@) == effects_view(old(out)@).push(e@),
{
    out.push(e);
    proof {
        assert(effects_view(out@) =~= effects_view(old(out)@).push(e@));
    }
}

fn emit_if(out: &mut Vec<Effect>, cond: bool, e: Effect)
    ensures
        effects_view(final(out)@) == effects_view(old(out)@) + on(cond, e@),
{
    if cond {
        out.push(e);
    }
    proof {
        assert(effects_view(out@) =~= effects_view(old(out)@) + on(cond, e@));
    }
}

proof fn chained(a: Seq<EffectV>, b: Seq<EffectV>, c: Seq<EffectV>)
    ensures
        (a + b) + c == a + (b + c),
{
    assert((a + b) + c =~= a + (b + c));
}

// ----------------------------------------------------------------------
// The context order
// ----------------------------------------------------------------------

/// What is under the mouse.
#[derive(Clone, Copy, Debug, PartialEq, Eq, Structural)]
pub struct Spot {
    pub tile: Tp,
    /// the entity, if there is one
    pub hit: Option<Eid>,
    /// what the tile yields, if anything: 0 ore, 1 wood, 2 stone
    pub resource: Option<u8>,
    /// does the tile lie on the map?
    pub in_bounds: bool,
    /// could the building that is being placed stand there?
    pub can_place: bool,
}

pub open spec fn captures(engineers: Seq<Eid>, target: Eid) -> Seq<EffectV> {
    Seq::new(engineers.len(), |i: int| EffectV::Order(CommandV::Capture { unit: engineers[i], target }))
}

/// The order that a click on an entity calls for, if any.
pub open spec fn order_on(ents: Seq<Ent>, units: Seq<Eid>, me: u8, e: Ent, at: Tp) -> Option<Seq<EffectV>> {
    let engineers = such(ents, units, Want::Engineer, me);
    let armed = such(ents, units, Want::Armed, me);
    let patients = such(
        ents,
        units,
        if e.depot {
            Want::Vehicle
        } else {
            Want::Infantry
        },
        me,
    );
    if e.owner != me {
        // engineers capture first
        if e.building && engineers.len() > 0 {
            Some(captures(engineers, e.id).push(EffectV::Mark(at, Hue::Capture)))
        } else if armed.len() > 0 {
            Some(seq![EffectV::Order(CommandV::Attack { units: armed, target: e.id }), EffectV::Mark(at, Hue::Attack)])
        } else {
            None
        }
    } else if (e.depot || e.clinic) && patients.len() > 0 {
        // send the matching units to be serviced
        Some(
            seq![
                EffectV::Order(CommandV::Move { units: patients, to: at }),
                EffectV::Mark(
                    at,
                    if e.depot {
                        Hue::Repair
                    } else {
                        Hue::Heal
                    },
                ),
                EffectV::Say(
                    if e.depot {
                        Notice::ToRepairs
                    } else {
                        Notice::ToMedBay
                    },
                ),
            ],
        )
    } else {
        None
    }
}

pub open spec fn yield_hue(kind: u8) -> Hue {
    if kind == 1 {
        Hue::Wood
    } else if kind == 2 {
        Hue::Stone
    } else {
        Hue::Ore
    }
}

/// The order that a click on a resource calls for, if any: harvesters harvest, the others go
/// along.
pub open spec fn order_to_harvest(ents: Seq<Ent>, units: Seq<Eid>, me: u8, kind: u8, at: Tp) -> Option<Seq<EffectV>> {
    let harv = such(ents, units, Want::Harvester, me);
    let rest = without(units, harv);
    if harv.len() == 0 {
        None
    } else {
        Some(
            seq![EffectV::Order(CommandV::Harvest { units: harv, tile: at })] + (if rest.len() > 0 {
                seq![EffectV::Order(CommandV::Move { units: rest, to: at })]
            } else {
                Seq::empty()
            }) + seq![EffectV::Mark(at, yield_hue(kind))],
        )
    }
}

/// The order that a click on the ground calls for: units move there; without any, the first
/// selected building sets its rally point.
pub open spec fn order_to_go(ents: Seq<Ent>, sel: Seq<Eid>, units: Seq<Eid>, me: u8, at: Tp) -> Seq<EffectV> {
    if units.len() > 0 {
        seq![EffectV::Order(CommandV::Move { units, to: at }), EffectV::Mark(at, Hue::Move)]
    } else if sel.len() > 0 && is_such(ents, sel[0], Want::OwnBuilding, me) {
        seq![EffectV::Order(CommandV::SetRally { building: sel[0], at }), EffectV::Mark(at, Hue::Rally)]
    } else {
        Seq::empty()
    }
}

/// What a right click comes to: an order on the entity, or on the resource, or to go there.
pub open spec fn context_order(ents: Seq<Ent>, sel: Seq<Eid>, me: u8, s: Spot) -> Seq<EffectV> {
    let units = such(ents, sel, Want::Unit, me);
    let on = match s.hit {
        Some(id) => match ent_of(ents, id) {
            Some(e) => order_on(ents, units, me, e, s.tile),
            None => None,
        },
        None => None,
    };
    let harvest = match s.resource {
        Some(k) => order_to_harvest(ents, units, me, k, s.tile),
        None => None,
    };
    match on {
        Some(fx) => fx,
        None => match harvest {
            Some(fx) => fx,
            None => order_to_go(ents, sel, units, me, s.tile),
        },
    }
}
fn give_on(out: &mut Vec<Effect>, ents: &Vec<Ent>, units: &Vec<Eid>, me: u8, e: &Ent, at: Tp) -> (given: bool)
    ensures
        given == (order_on(ents@, units@, me, *e, at) is Some),
        given ==> effects_view(final(out)@) == effects_view(old(out)@) + order_on(ents@, units@, me, *e, at)->0,
        !given ==> final(out)@ == old(out)@,
{
    let ghost base = effects_view(out@);
    if e.owner != me {
        let engineers: Vec<Eid> = pick(ents, units, Want::Engineer, me);
        if e.building && engineers.len() > 0 {
            let ghost all = captures(engineers@, e.id);
            let mut i: usize = 0;
            proof {
                assert(effects_view(out@) =~= base + all.take(0));
            }
            while i < engineers.len()
                invariant
                    i <= engineers@.len(),
                    all == captures(engineers@, e.id),
                    effects_view(out@) == base + all.take(i as int),
                decreases engineers@.len() - i,
            {
                emit(out, Effect::Order(Command::Capture { unit: engineers[i], target: e.id }));
                proof {
                    assert(all.take(i + 1) =~= all.take(i as int).push(all[i as int]));
                    assert(effects_view(out@) =~= base + all.take(i + 1));
                }
                i = i + 1;
            }
            proof {
                assert(all.take(i as int) =~= all);
            }
            emit(out, Effect::Mark(at, Hue::Capture));
            proof {
                assert(effects_view(out@) =~= base + all.push(EffectV::Mark(at, Hue::Capture)));
            }
            return true;
        }
        let armed: Vec<Eid> = pick(ents, units, Want::Armed, me);
        if armed.len() > 0 {
            emit(out, Effect::Order(Command::Attack { units: armed, target: e.id }));
            emit(out, Effect::Mark(at, Hue::Attack));
            proof {
                assert(effects_view(out@) =~= base + order_on(ents@, units@, me, *e, at)->0);
            }
            return true;
        }
        false
    } else if e.depot || e.clinic {
        let patients: Vec<Eid> = pick(ents, units, if e.depot { Want::Vehicle } else { Want::Infantry }, me);
        if patients.len() == 0 {
            return false;
        }
        emit(out, Effect::Order(Command::Move { units: patients, to: at }));
        emit(out, Effect::Mark(at, if e.depot { Hue::Repair } else { Hue::Heal }));
        emit(out, Effect::Say(if e.depot { Notice::ToRepairs } else { Notice::ToMedBay }));
        proof {
            assert(effects_view(out@) =~= base + order_on(ents@, units@, me, *e, at)->0);
        }
        true
    } else {
        false
    }
}

fn give_harvest(out: &mut Vec<Effect>, ents: &Vec<Ent>, units: &Vec<Eid>, me: u8, kind: u8, at: Tp) -> (given: bool)
    ensures
        given == (order_to_harvest(ents@, units@, me, kind, at) is Some),
        given ==> effects_view(final(out)@) == effects_view(old(out)@) + order_to_harvest(ents@, units@, me, kind, at)->0,
        !given ==> final(out)@ == old(out)@,
{
    let ghost base = effects_view(out@);
    let harv: Vec<Eid> = pick(ents, units, Want::Harvester, me);
    if harv.len() == 0 {
        return false;
    }
    let rest: Vec<Eid> = drop_all(units, &harv);
    emit(out, Effect::Order(Command::Harvest { units: harv, tile: at }));
    if rest.len() > 0 {
        emit(out, Effect::Order(Command::Move { units: rest, to: at }));
    }
    emit(
        out,
        Effect::Mark(
            at,
            match kind {
                1 => Hue::Wood,
                2 => Hue::Stone,
                _ => Hue::Ore,
            },
        ),
    );
    proof {
        assert(effects_view(out@) =~= base + order_to_harvest(ents@, units@, me, kind, at)->0);
    }
    true
}

/// Give the order that a right click comes to.
pub fn issue_context_order(out: &mut Vec<Effect>, ents: &Vec<Ent>, sel: &Vec<Eid>, me: u8, s: &Spot)
    ensures
        effects_view(final(out)@) == effects_view(old(out)@) + context_order(ents@, sel@, me, *s),
{
    let ghost base = effects_view(out@);
    let units: Vec<Eid> = pick(ents, sel, Want::Unit, me);
    match s.hit {
        Some(id) => match find(ents, id) {
            Some(e) => {
                if give_on(out, ents, &units, me, &e, s.tile) {
                    return;
                }
            },
            None => {},
        },
        None => {},
    }
    // harvesters to a resource: ore (ground), wood (tree), or stone (rock)
    match s.resource {
        Some(kind) => {
            if give_harvest(out, ents, &units, me, kind, s.tile) {
                return;
            }
        },
        None => {},
    }
    if units.len() > 0 {
        emit(out, Effect::Order(Command::Move { units, to: s.tile }));
        emit(out, Effect::Mark(s.tile, Hue::Move));
        proof {
            assert(effects_view(out@) =~= base + context_order(ents@, sel@, me, *s));
        }
        return;
    }
    // a lone selected building: set rally
    if sel.len() > 0 && check(ents, sel[0], Want::OwnBuilding, me) {
        emit(out, Effect::Order(Command::SetRally { building: sel[0], at: s.tile }));
        emit(out, Effect::Mark(s.tile, Hue::Rally));
    }
    proof {
        assert(effects_view(out@) =~= base + context_order(ents@, sel@, me, *s));
    }
}

// ----------------------------------------------------------------------
// The console
// ----------------------------------------------------------------------

/// How many control groups there are; group 0 is never used.
pub const GROUPS: usize = 10;

#[derive(Debug)]
pub struct Console {
    pub sel: Vec<Eid>,
    pub groups: Vec<Vec<Eid>>,
    /// the kind of building that is being placed
    pub placing: Option<u8>,
    /// a charged missile silo armed for launch; the next map click is the target
    pub nuke_arm: Option<Eid>,
    /// the next map click is an attack-move
    pub amove: bool,
    /// the chat line, while one is typed
    pub chat: Option<String>,
    /// the left button went down on the field
    pub dragging: bool,
    pub help: bool,
    pub units_tab: bool,
    pub show_map: bool,
}

#[verifier::ext_equal]
pub struct ConsoleV {
    pub sel: Seq<Eid>,
    pub groups: Seq<Seq<Eid>>,
    pub placing: Option<u8>,
    pub nuke_arm: Option<Eid>,
    pub amove: bool,
    pub chat: Option<Seq<char>>,
    pub dragging: bool,
    pub help: bool,
    pub units_tab: bool,
    pub show_map: bool,
}

impl View for Console {
    type V = ConsoleV;

    open spec fn view(&self) -> ConsoleV {
        ConsoleV {
            sel: self.sel@,
            groups: Seq::new(self.groups@.len(), |i: int| self.groups@[i]@),
            placing: self.placing,
            nuke_arm: self.nuke_arm,
            amove: self.amove,
            chat: crate::args::text_in(self.chat),
            dragging: self.dragging,
            help: self.help,
            units_tab: self.units_tab,
            show_map: self.show_map,
        }
    }
}

/// A click in the sidebar.
#[derive(Clone, Copy, Debug, PartialEq, Eq, Structural)]
pub enum Side {
    Nothing,
    /// a tab: units, or buildings
    Tab { units: bool },
    /// a building to place
    Place { kind: u8 },
    /// a unit to train, and the kind of building that trains it, if any does
    Train { kind: u8, producer: Option<u8> },
}

/// Where the left button went down.
#[derive(Clone, Copy, Debug, PartialEq, Eq, Structural)]
pub enum Left {
    Nowhere,
    Minimap,
    Sidebar(Side),
    Field,
}

/// What the left button let go of.
#[derive(Debug)]
pub struct Release {
    /// a click, rather than a box
    pub click: bool,
    /// the entity under the mouse
    pub hit: Option<Eid>,
    /// our units in the box
    pub picks: Vec<Eid>,
}

/// A frame's input.
#[derive(Debug)]
pub struct Input {
    pub typed: Vec<char>,
    pub backspace: bool,
    pub enter: bool,
    pub escape: bool,
    pub f1: bool,
    pub f5: bool,
    pub key_a: bool,
    pub key_s: bool,
    pub key_x: bool,
    pub key_h: bool,
    pub key_n: bool,
    /// the number keys 1 to 9
    pub digits: Vec<bool>,
    pub left_ctrl: bool,
    pub right_ctrl: bool,
    pub left_shift: bool,
    pub right_shift: bool,
    /// the left button went down on a region of the world map
    pub region: Option<usize>,
    pub left: Left,
    pub release: Option<Release>,
    pub right: bool,
    pub in_view: bool,
    pub spot: Spot,
}

pub type Step = (ConsoleV, Seq<EffectV>);

pub open spec fn typed_all(buf: Seq<char>, cs: Seq<char>) -> Seq<char>
    decreases cs.len(),
{
    if cs.len() == 0 {
        buf
    } else {
        typed(typed_all(buf, cs.drop_last()), cs.last())
    }
}

/// While a line of chat is typed the keyboard writes it; Enter says it, Escape drops it.
pub open spec fn chatting(c: ConsoleV, buf: Seq<char>, i: Input) -> Step {
    let t = typed_all(buf, i.typed@);
    let line = if i.backspace {
        untyped(t)
    } else {
        t
    };
    (
        ConsoleV {
            chat: if i.enter || i.escape {
                None
            } else {
                Some(line)
            },
            ..c
        },
        if i.enter {
            match spoken(line) {
                Some(cmd) => seq![EffectV::Order(cmd)],
                None => Seq::empty(),
            }
        } else {
            Seq::empty()
        },
    )
}

/// Dead or lost units leave the selection; a silo that died or already fired is disarmed.
pub open spec fn validated(c: ConsoleV, ents: Seq<Ent>, me: u8) -> ConsoleV {
    ConsoleV {
        sel: such(ents, c.sel, Want::Living, me),
        nuke_arm: match c.nuke_arm {
            Some(silo) => match ent_of(ents, silo) {
                Some(e) => if e.owner == me && e.silo && e.charged {
                    Some(silo)
                } else {
                    None
                },
                None => None,
            },
            None => None,
        },
        ..c
    }
}

/// Escape leaves the innermost mode, or clears the selection.
pub open spec fn escaped(c: ConsoleV) -> ConsoleV {
    if c.nuke_arm is Some {
        ConsoleV { nuke_arm: None, ..c }
    } else if c.placing is Some {
        ConsoleV { placing: None, ..c }
    } else if c.amove {
        ConsoleV { amove: false, ..c }
    } else {
        ConsoleV { sel: Seq::empty(), ..c }
    }
}

/// Sell the first selected building of ours that is finished.
pub open spec fn sold(c: ConsoleV, ents: Seq<Ent>, me: u8) -> Step {
    match first_such(ents, c.sel, Want::Sellable, me) {
        Some(b) => (
            ConsoleV { sel: without(c.sel, seq![b]), ..c },
            seq![EffectV::Order(CommandV::Sell { building: b })],
        ),
        None => (c, Seq::empty()),
    }
}

/// Arm the first selected silo that is ready.
pub open spec fn armed(c: ConsoleV, ents: Seq<Ent>, me: u8) -> Step {
    match first_such(ents, c.sel, Want::ReadySilo, me) {
        Some(silo) => (ConsoleV { nuke_arm: Some(silo), ..c }, seq![EffectV::Say(Notice::PickTarget)]),
        None => if such(ents, c.sel, Want::Silo, me).len() > 0 {
            (c, seq![EffectV::Say(Notice::StillCharging)])
        } else {
            (c, Seq::empty())
        },
    }
}

/// A number key: with Ctrl it stores the selection, without it recalls one.
pub open spec fn grouped(c: ConsoleV, n: int, ctrl: bool, ents: Seq<Ent>, me: u8) -> ConsoleV {
    if ctrl {
        ConsoleV { groups: c.groups.update(n, c.sel), ..c }
    } else if c.groups[n].len() > 0 {
        validated(ConsoleV { sel: c.groups[n], ..c }, ents, me)
    } else {
        c
    }
}

/// The number keys up to `n`, in turn.
pub open spec fn grouped_all(c: ConsoleV, n: nat, i: Input, ents: Seq<Ent>, me: u8) -> ConsoleV
    decreases n,
{
    if n == 0 {
        c
    } else {
        let before = grouped_all(c, (n - 1) as nat, i, ents, me);
        if i.digits@[n - 1] {
            grouped(before, n as int, i.left_ctrl || i.right_ctrl, ents, me)
        } else {
            before
        }
    }
}

/// F1, F5, Escape, A and S, each after the other.
pub open spec fn keyed_first(c: ConsoleV, i: Input, ents: Seq<Ent>, me: u8) -> Step {
    let c1 = ConsoleV {
        help: if i.f1 {
            !c.help
        } else {
            c.help
        },
        ..c
    };
    let c2 = if i.escape {
        escaped(c1)
    } else {
        c1
    };
    let units = such(ents, c2.sel, Want::Unit, me);
    (
        if i.key_a && units.len() > 0 {
            ConsoleV { amove: true, ..c2 }
        } else {
            c2
        },
        on(i.f5, EffectV::Save) + on(i.key_n && i.left_ctrl && i.left_shift, EffectV::Descend) + on(
            i.key_s && units.len() > 0,
            EffectV::Order(CommandV::Stop { units }),
        ),
    )
}

/// X, H, N and the number keys, each after the other.
pub open spec fn keyed_then(c: ConsoleV, i: Input, ents: Seq<Ent>, me: u8) -> Step {
    let (c1, fx1) = if i.key_x {
        sold(c, ents, me)
    } else {
        (c, Seq::empty())
    };
    let (c2, fx2) = if i.key_n {
        armed(c1, ents, me)
    } else {
        (c1, Seq::empty())
    };
    (grouped_all(c2, 9, i, ents, me), fx1 + on(i.key_h, EffectV::Center) + fx2)
}

/// The hotkeys, each after the other.
pub open spec fn keyed(c: ConsoleV, i: Input, ents: Seq<Ent>, me: u8) -> Step {
    let (c1, fx1) = keyed_first(c, i, ents, me);
    let (c2, fx2) = keyed_then(c1, i, ents, me);
    (c2, fx1 + fx2)
}

/// The effect, if the condition holds.
pub open spec fn on(cond: bool, e: EffectV) -> Seq<EffectV> {
    if cond {
        seq![e]
    } else {
        Seq::empty()
    }
}

/// Which building would train a unit: a selected one first, else the first of ours.
pub open spec fn producer_of(ents: Seq<Ent>, sel: Seq<Eid>, me: u8, kind: u8) -> Option<Eid> {
    match first_trainer(ents, sel, me, kind) {
        Some(b) => Some(b),
        None => first_own(ents, me, kind),
    }
}

pub open spec fn trains(e: Ent, me: u8, kind: u8) -> bool {
    e.owner == me && e.kind == kind && e.done
}

pub open spec fn first_trainer(ents: Seq<Ent>, sel: Seq<Eid>, me: u8, kind: u8) -> Option<Eid>
    decreases sel.len(),
{
    if sel.len() == 0 {
        None
    } else if ent_of(ents, sel[0]) matches Some(e) && trains(e, me, kind) {
        Some(sel[0])
    } else {
        first_trainer(ents, sel.drop_first(), me, kind)
    }
}

pub open spec fn first_own(ents: Seq<Ent>, me: u8, kind: u8) -> Option<Eid>
    decreases ents.len(),
{
    if ents.len() == 0 {
        None
    } else if trains(ents[0], me, kind) {
        Some(ents[0].id)
    } else {
        first_own(ents.drop_first(), me, kind)
    }
}

/// A click in the sidebar: a tab, a building to place (or no longer), a unit to train.
pub open spec fn sided(c: ConsoleV, s: Side, ents: Seq<Ent>, me: u8) -> Step {
    match s {
        Side::Nothing => (c, Seq::empty()),
        Side::Tab { units } => (ConsoleV { units_tab: units, ..c }, Seq::empty()),
        Side::Place { kind } => (
            ConsoleV {
                placing: if c.placing == Some(kind) {
                    None
                } else {
                    Some(kind)
                },
                ..c
            },
            Seq::empty(),
        ),
        Side::Train { kind, producer } => (
            c,
            match producer {
                Some(by) => match producer_of(ents, c.sel, me, by) {
                    Some(b) => seq![EffectV::Order(CommandV::Train { building: b, kind })],
                    None => Seq::empty(),
                },
                None => Seq::empty(),
            },
        ),
    }
}

/// The left button goes down on the field: a launch, a building, an attack-move, or the start
/// of a selection.
pub open spec fn fielded(c: ConsoleV, shift: bool, s: Spot, ents: Seq<Ent>, me: u8) -> Step {
    let units = such(ents, c.sel, Want::Unit, me);
    if c.nuke_arm is Some {
        if s.in_bounds {
            (
                ConsoleV { nuke_arm: None, ..c },
                seq![
                    EffectV::Order(CommandV::FireNuke { silo: c.nuke_arm->0, at: s.tile }),
                    EffectV::Mark(s.tile, Hue::Nuke),
                ],
            )
        } else {
            (c, Seq::empty())
        }
    } else if c.placing is Some {
        if s.can_place {
            (
                ConsoleV {
                    placing: if shift {
                        c.placing
                    } else {
                        None
                    },
                    ..c
                },
                seq![EffectV::Order(CommandV::Build { kind: c.placing->0, at: s.tile })],
            )
        } else {
            (c, Seq::empty())
        }
    } else if c.amove {
        (
            ConsoleV { amove: false, ..c },
            if units.len() > 0 {
                seq![EffectV::Order(CommandV::AttackMove { units, to: s.tile }), EffectV::Mark(s.tile, Hue::Advance)]
            } else {
                Seq::empty()
            },
        )
    } else {
        (ConsoleV { dragging: true, ..c }, Seq::empty())
    }
}

pub open spec fn lefted(c: ConsoleV, i: Input, ents: Seq<Ent>, me: u8) -> Step {
    match i.left {
        Left::Nowhere => (c, Seq::empty()),
        Left::Minimap => (c, seq![EffectV::Jump]),
        Left::Sidebar(s) => sided(c, s, ents, me),
        Left::Field => fielded(c, i.left_shift, i.spot, ents, me),
    }
}

/// The selection after a drag ends: a click picks one of ours (with Shift it joins, or leaves
/// if it was in); a box joins our units in it.
pub open spec fn selection(sel: Seq<Eid>, r: Release, shift: bool, ents: Seq<Ent>, me: u8) -> Seq<Eid> {
    if r.click {
        match r.hit {
            Some(id) => if !(ent_of(ents, id) matches Some(e) && e.owner == me) {
                sel
            } else if shift && sel.contains(id) {
                without(sel, seq![id])
            } else if !sel.contains(id) {
                sel.push(id)
            } else {
                sel
            },
            None => sel,
        }
    } else {
        joined_by(sel, r.picks@)
    }
}

/// The left button goes up.
pub open spec fn released(c: ConsoleV, i: Input, ents: Seq<Ent>, me: u8) -> Step {
    match i.release {
        Some(r) => if c.dragging {
            let shift = i.left_shift || i.right_shift;
            let kept = if shift {
                c.sel
            } else {
                Seq::empty()
            };
            let sel = selection(kept, r, shift, ents, me);
            (ConsoleV { dragging: false, sel, ..c }, on(sel.len() > kept.len(), EffectV::Blip))
        } else {
            (c, Seq::empty())
        },
        None => (c, Seq::empty()),
    }
}

/// The right button goes down: it cancels the innermost mode, or gives the context order.
pub open spec fn righted(c: ConsoleV, i: Input, ents: Seq<Ent>, me: u8) -> Step {
    if !i.right {
        (c, Seq::empty())
    } else if c.nuke_arm is Some {
        (ConsoleV { nuke_arm: None, ..c }, Seq::empty())
    } else if c.placing is Some {
        (ConsoleV { placing: None, ..c }, Seq::empty())
    } else if c.amove {
        (ConsoleV { amove: false, ..c }, Seq::empty())
    } else if i.in_view {
        (c, context_order(ents, c.sel, me, i.spot))
    } else {
        (c, Seq::empty())
    }
}

/// The keys and the mouse over the live game.
pub open spec fn commanded(c: ConsoleV, i: Input, ents: Seq<Ent>, me: u8) -> Step {
    let (c1, fx1) = keyed(c, i, ents, me);
    let (c2, fx2) = lefted(c1, i, ents, me);
    let (c3, fx3) = released(c2, i, ents, me);
    let (c4, fx4) = righted(c3, i, ents, me);
    (c4, fx1 + fx2 + fx3 + fx4)
}

/// One frame: the world map swallows all input while it is open, and so does the chat line;
/// Enter opens the chat line.
pub open spec fn handled(c: ConsoleV, i: Input, ents: Seq<Ent>, me: u8) -> Step {
    if c.show_map {
        (
            c,
            match i.region {
                Some(k) => seq![EffectV::Travel(k)],
                None => Seq::empty(),
            },
        )
    } else {
        match c.chat {
            Some(buf) => chatting(c, buf, i),
            None => if i.enter {
                (ConsoleV { chat: Some(Seq::empty()), ..c }, Seq::empty())
            } else {
                commanded(c, i, ents, me)
            },
        }
    }
}

proof fn such_grows(ents: Seq<Ent>, ids: Seq<Eid>, n: int, w: Want, me: u8)
    requires
        0 <= n <= ids.len(),
    ensures
        such(ents, ids.take(n), w, me).len() <= such(ents, ids, w, me).len(),
        such(ents, ids.take(n), w, me) == such(ents, ids, w, me).take(such(ents, ids.take(n), w, me).len() as int),
    decreases ids.len(),
{
    let all = such(ents, ids, w, me);
    let part = such(ents, ids.take(n), w, me);
    if n == ids.len() {
        assert(ids.take(n) =~= ids);
        assert(all =~= all.take(all.len() as int));
    } else {
        let head = such(ents, ids.drop_last(), w, me);
        such_grows(ents, ids.drop_last(), n, w, me);
        assert(ids.drop_last().take(n) =~= ids.take(n));
        assert(part =~= all.take(part.len() as int));
    }
}

fn first(ents: &Vec<Ent>, ids: &Vec<Eid>, w: Want, me: u8) -> (r: Option<Eid>)
    ensures
        r == first_such(ents@, ids@, w, me),
{
    let mut i: usize = 0;
    while i < ids.len()
        invariant
            i <= ids@.len(),
            such(ents@, ids@.take(i as int), w, me).len() == 0,
        decreases ids@.len() - i,
    {
        proof {
            assert(ids@.take(i + 1).drop_last() =~= ids@.take(i as int));
        }
        if check(ents, ids[i], w, me) {
            proof {
                such_grows(ents@, ids@, i + 1, w, me);
                let part = such(ents@, ids@.take(i + 1), w, me);
                assert(part[0] == ids@[i as int]);
                assert(such(ents@, ids@, w, me)[0] == part[0]);
            }
            return Some(ids[i]);
        }
        i = i + 1;
    }
    proof {
        assert(ids@.take(i as int) =~= ids@);
    }
    None
}

/// Find the building that would train a unit whose trainers are of a kind: prefer a selected
/// one.
pub fn producer_for(ents: &Vec<Ent>, sel: &Vec<Eid>, me: u8, kind: u8) -> (r: Option<Eid>)
    ensures
        r == producer_of(ents@, sel@, me, kind),
{
    let mut i: usize = 0;
    proof {
        assert(sel@.skip(0) =~= sel@);
    }
    while i < sel.len()
        invariant
            i <= sel@.len(),
            first_trainer(ents@, sel@.skip(i as int), me, kind) == first_trainer(ents@, sel@, me, kind),
        decreases sel@.len() - i,
    {
        proof {
            assert(sel@.skip(i as int).drop_first() =~= sel@.skip(i + 1));
        }
        match find(ents, sel[i]) {
            Some(e) => {
                if e.owner == me && e.kind == kind && e.done {
                    return Some(sel[i]);
                }
            },
            None => {},
        }
        i = i + 1;
    }
    let mut j: usize = 0;
    proof {
        assert(ents@.skip(0) =~= ents@);
    }
    while j < ents.len()
        invariant
            j <= ents@.len(),
            first_own(ents@.skip(j as int), me, kind) == first_own(ents@, me, kind),
            first_trainer(ents@, sel@, me, kind) is None,
        decreases ents@.len() - j,
    {
        proof {
            assert(ents@.skip(j as int).drop_first() =~= ents@.skip(j + 1));
        }
        if ents[j].owner == me && ents[j].kind == kind && ents[j].done {
            return Some(ents[j].id);
        }
        j = j + 1;
    }
    None
}

impl Console {
    /// All control groups are there.
    pub open spec fn wf(&self) -> bool {
        self.groups@.len() == GROUPS
    }

    pub fn new() -> (c: Console)
        ensures
            c.wf(),
            c@.sel.len() == 0,
            forall|i: int| 0 <= i < GROUPS ==> (#[trigger] c@.groups[i]).len() == 0,
            c@.placing is None && c@.nuke_arm is None && !c@.amove && c@.chat is None && !c@.dragging && !c@.help
                && !c@.units_tab && !c@.show_map,
    {
        let mut groups: Vec<Vec<Eid>> = Vec::new();
        let mut i: usize = 0;
        while i < GROUPS
            invariant
                i <= GROUPS,
                groups@.len() == i,
                forall|k: int| 0 <= k < i ==> (#[trigger] groups@[k])@.len() == 0,
            decreases GROUPS - i,
        {
            groups.push(Vec::new());
            i = i + 1;
        }
        Console {
            sel: Vec::new(),
            groups,
            placing: None,
            nuke_arm: None,
            amove: false,
            chat: None,
            dragging: false,
            help: false,
            units_tab: false,
            show_map: false,
        }
    }

    /// A new region was entered: nothing of the old one is selected or under way.
    pub fn reset(&mut self)
        ensures
            final(self).wf(),
            final(self)@ == (ConsoleV {
                sel: Seq::empty(),
                groups: Seq::new(GROUPS as nat, |i: int| Seq::<Eid>::empty()),
                placing: None,
                amove: false,
                dragging: false,
                ..old(self)@
            }),
    {
        let fresh = Console::new();
        self.sel = Vec::new();
        self.groups = fresh.groups;
        self.placing = None;
        self.amove = false;
        self.dragging = false;
        proof {
            assert(self.sel@ =~= Seq::empty());
            assert forall|i: int| 0 <= i < GROUPS implies (#[trigger] self@.groups[i]) == Seq::<Eid>::empty() by {
                assert(fresh@.groups[i].len() == 0);
                assert(self@.groups[i] =~= Seq::<Eid>::empty());
            }
            assert(self@.groups =~= Seq::new(GROUPS as nat, |i: int| Seq::<Eid>::empty()));
        }
    }

    /// Drop dead or lost units from the selection, and a silo that died or already fired.
    pub fn validate_selection(&mut self, ents: &Vec<Ent>, me: u8)
        ensures
            final(self)@ == validated(old(self)@, ents@, me),
            final(self).groups == old(self).groups,
    {
        self.sel = pick(ents, &self.sel, Want::Living, me);
        match self.nuke_arm {
            Some(silo) => {
                let ok: bool = match find(ents, silo) {
                    Some(e) => e.owner == me && e.silo && e.charged,
                    None => false,
                };
                if !ok {
                    self.nuke_arm = None;
                }
            },
            None => {},
        }
    }

    /// The units among the selection.
    pub fn selected_units(&self, ents: &Vec<Ent>, me: u8) -> (r: Vec<Eid>)
        ensures
            r@ == such(ents@, self@.sel, Want::Unit, me),
    {
        pick(ents, &self.sel, Want::Unit, me)
    }

    fn escape(&mut self)
        ensures
            final(self)@ == escaped(old(self)@),
            final(self).groups == old(self).groups,
    {
        if self.nuke_arm.is_some() {
            self.nuke_arm = None;
        } else if self.placing.is_some() {
            self.placing = None;
        } else if self.amove {
            self.amove = false;
        } else {
            self.sel = Vec::new();
            proof {
                assert(self.sel@ =~= Seq::empty());
            }
        }
    }

    fn sell(&mut self, out: &mut Vec<Effect>, ents: &Vec<Ent>, me: u8)
        ensures
            final(self)@ == sold(old(self)@, ents@, me).0,
            effects_view(final(out)@) == effects_view(old(out)@) + sold(old(self)@, ents@, me).1,
            final(self).groups == old(self).groups,
    {
        let ghost base = effects_view(out@);
        match first(ents, &self.sel, Want::Sellable, me) {
            Some(b) => {
                emit(out, Effect::Order(Command::Sell { building: b }));
                let mut gone: Vec<Eid> = Vec::new();
                gone.push(b);
                proof {
                    assert(gone@ =~= seq![b]);
                }
                self.sel = drop_all(&self.sel, &gone);
            },
            None => {},
        }
        proof {
            assert(effects_view(out@) =~= base + sold(old(self)@, ents@, me).1);
        }
    }

    fn arm(&mut self, out: &mut Vec<Effect>, ents: &Vec<Ent>, me: u8)
        ensures
            final(self)@ == armed(old(self)@, ents@, me).0,
            effects_view(final(out)@) == effects_view(old(out)@) + armed(old(self)@, ents@, me).1,
            final(self).groups == old(self).groups,
    {
        let ghost base = effects_view(out@);
        match first(ents, &self.sel, Want::ReadySilo, me) {
            Some(silo) => {
                self.nuke_arm = Some(silo);
                emit(out, Effect::Say(Notice::PickTarget));
            },
            None => {
                if pick(ents, &self.sel, Want::Silo, me).len() > 0 {
                    emit(out, Effect::Say(Notice::StillCharging));
                }
            },
        }
        proof {
            assert(effects_view(out@) =~= base + armed(old(self)@, ents@, me).1);
        }
    }

    fn group(&mut self, n: usize, ctrl: bool, ents: &Vec<Ent>, me: u8)
        requires
            old(self).wf(),
            n < GROUPS,
        ensures
            final(self)@ == grouped(old(self)@, n as int, ctrl, ents@, me),
            final(self).wf(),
    {
        if ctrl {
            self.groups[n] = copy_ids(&self.sel);
            proof {
                assert(self@.groups =~= old(self)@.groups.update(n as int, old(self)@.sel));
            }
        } else if self.groups[n].len() > 0 {
            self.sel = copy_ids(&self.groups[n]);
            self.validate_selection(ents, me);
        }
    }

    fn groups_keys(&mut self, i: &Input, ents: &Vec<Ent>, me: u8)
        requires
            old(self).wf(),
            i.digits@.len() == 9,
        ensures
            final(self)@ == grouped_all(old(self)@, 9, *i, ents@, me),
            final(self).wf(),
    {
        let mut n: usize = 0;
        while n < 9
            invariant
                n <= 9,
                i.digits@.len() == 9,
                self.wf(),
                self@ == grouped_all(old(self)@, n as nat, *i, ents@, me),
            decreases 9 - n,
        {
            if i.digits[n] {
                self.group(n + 1, i.left_ctrl || i.right_ctrl, ents, me);
            }
            n = n + 1;
        }
    }

    fn stop(&self, out: &mut Vec<Effect>, key: bool, ents: &Vec<Ent>, me: u8)
        ensures
            ({
                let units = such(ents@, self@.sel, Want::Unit, me);
                effects_view(final(out)@) == effects_view(old(out)@) + on(
                    key && units.len() > 0,
                    EffectV::Order(CommandV::Stop { units }),
                )
            }),
    {
        let units: Vec<Eid> = self.selected_units(ents, me);
        let some: bool = units.len() > 0;
        emit_if(out, key && some, Effect::Order(Command::Stop { units }));
    }

    fn sell_key(&mut self, out: &mut Vec<Effect>, key: bool, ents: &Vec<Ent>, me: u8)
        ensures
            ({
                let step = if key {
                    sold(old(self)@, ents@, me)
                } else {
                    (old(self)@, Seq::empty())
                };
                final(self)@ == step.0 && effects_view(final(out)@) == effects_view(old(out)@) + step.1
            }),
            final(self).groups == old(self).groups,
    {
        if key {
            self.sell(out, ents, me);
        } else {
            proof {
                assert(effects_view(out@) + Seq::empty() =~= effects_view(out@));
            }
        }
    }

    fn arm_key(&mut self, out: &mut Vec<Effect>, key: bool, ents: &Vec<Ent>, me: u8)
        ensures
            ({
                let step = if key {
                    armed(old(self)@, ents@, me)
                } else {
                    (old(self)@, Seq::empty())
                };
                final(self)@ == step.0 && effects_view(final(out)@) == effects_view(old(out)@) + step.1
            }),
            final(self).groups == old(self).groups,
    {
        if key {
            self.arm(out, ents, me);
        } else {
            proof {
                assert(effects_view(out@) + Seq::empty() =~= effects_view(out@));
            }
        }
    }

    fn keys_first(&mut self, out: &mut Vec<Effect>, i: &Input, ents: &Vec<Ent>, me: u8)
        ensures
            final(self)@ == keyed_first(old(self)@, *i, ents@, me).0,
            effects_view(final(out)@) == effects_view(old(out)@) + keyed_first(old(self)@, *i, ents@, me).1,
            final(self).groups == old(self).groups,
    {
        let ghost base = effects_view(out@);
        if i.f1 {
            self.help = !self.help;
        }
        let ghost a1 = on(i.f5, EffectV::Save);
        let ghost a2 = on(i.key_n && i.left_ctrl && i.left_shift, EffectV::Descend);
        emit_if(out, i.f5, Effect::Save);
        emit_if(out, i.key_n && i.left_ctrl && i.left_shift, Effect::Descend);
        if i.escape {
            self.escape();
        }
        if i.key_a && self.selected_units(ents, me).len() > 0 {
            self.amove = true;
        }
        let ghost units = such(ents@, self@.sel, Want::Unit, me);
        let ghost a3 = on(i.key_s && units.len() > 0, EffectV::Order(CommandV::Stop { units }));
        self.stop(out, i.key_s, ents, me);
        proof {
            chained(base, a1, a2);
            chained(base, a1 + a2, a3);
        }
    }

    fn keys_then(&mut self, out: &mut Vec<Effect>, i: &Input, ents: &Vec<Ent>, me: u8)
        requires
            old(self).wf(),
            i.digits@.len() == 9,
        ensures
            final(self)@ == keyed_then(old(self)@, *i, ents@, me).0,
            effects_view(final(out)@) == effects_view(old(out)@) + keyed_then(old(self)@, *i, ents@, me).1,
            final(self).wf(),
    {
        let ghost base = effects_view(out@);
        let ghost a1 = if i.key_x {
            sold(self@, ents@, me).1
        } else {
            Seq::empty()
        };
        self.sell_key(out, i.key_x, ents, me);
        let ghost c1 = self@;
        let ghost a2 = on(i.key_h, EffectV::Center);
        emit_if(out, i.key_h, Effect::Center);
        let ghost a3 = if i.key_n {
            armed(c1, ents@, me).1
        } else {
            Seq::empty()
        };
        self.arm_key(out, i.key_n, ents, me);
        proof {
            chained(base, a1, a2);
            chained(base, a1 + a2, a3);
        }
        self.groups_keys(i, ents, me);
    }

    fn side(&mut self, out: &mut Vec<Effect>, s: Side, ents: &Vec<Ent>, me: u8)
        ensures
            final(self)@ == sided(old(self)@, s, ents@, me).0,
            effects_view(final(out)@) == effects_view(old(out)@) + sided(old(self)@, s, ents@, me).1,
            final(self).groups == old(self).groups,
    {
        let ghost base = effects_view(out@);
        match s {
            Side::Nothing => {},
            Side::Tab { units } => {
                self.units_tab = units;
            },
            Side::Place { kind } => {
                self.placing = match self.placing {
                    Some(k) => if k == kind {
                        None
                    } else {
                        Some(kind)
                    },
                    None => Some(kind),
                };
            },
            Side::Train { kind, producer } => match producer {
                Some(by) => match producer_for(ents, &self.sel, me, by) {
                    Some(b) => emit(out, Effect::Order(Command::Train { building: b, kind })),
                    None => {},
                },
                None => {},
            },
        }
        proof {
            assert(effects_view(out@) =~= base + sided(old(self)@, s, ents@, me).1);
        }
    }

    fn field(&mut self, out: &mut Vec<Effect>, shift: bool, s: &Spot, ents: &Vec<Ent>, me: u8)
        ensures
            final(self)@ == fielded(old(self)@, shift, *s, ents@, me).0,
            effects_view(final(out)@) == effects_view(old(out)@) + fielded(old(self)@, shift, *s, ents@, me).1,
            final(self).groups == old(self).groups,
    {
        let ghost base = effects_view(out@);
        if let Some(silo) = self.nuke_arm {
            if s.in_bounds {
                emit(out, Effect::Order(Command::FireNuke { silo, at: s.tile }));
                emit(out, Effect::Mark(s.tile, Hue::Nuke));
                self.nuke_arm = None;
            }
        } else if let Some(kind) = self.placing {
            if s.can_place {
                emit(out, Effect::Order(Command::Build { kind, at: s.tile }));
                if !shift {
                    self.placing = None;
                }
            }
        } else if self.amove {
            let units: Vec<Eid> = self.selected_units(ents, me);
            if units.len() > 0 {
                emit(out, Effect::Order(Command::AttackMove { units, to: s.tile }));
                emit(out, Effect::Mark(s.tile, Hue::Advance));
            }
            self.amove = false;
        } else {
            self.dragging = true;
        }
        proof {
            assert(effects_view(out@) =~= base + fielded(old(self)@, shift, *s, ents@, me).1);
        }
    }

    fn let_go(&mut self, out: &mut Vec<Effect>, i: &Input, ents: &Vec<Ent>, me: u8)
        ensures
            final(self)@ == released(old(self)@, *i, ents@, me).0,
            effects_view(final(out)@) == effects_view(old(out)@) + released(old(self)@, *i, ents@, me).1,
            final(self).groups == old(self).groups,
    {
        let ghost base = effects_view(out@);
        match &i.release {
            Some(r) => {
                if self.dragging {
                    self.dragging = false;
                    let shift: bool = i.left_shift || i.right_shift;
                    if !shift {
                        self.sel = Vec::new();
                        proof {
                            assert(self.sel@ =~= Seq::empty());
                        }
                    }
                    let n: usize = self.sel.len();
                    let ghost kept = self.sel@;
                    if r.click {
                        match r.hit {
                            Some(id) => {
                                let own: bool = match find(ents, id) {
                                    Some(e) => e.owner == me,
                                    None => false,
                                };
                                if own {
                                    if shift && holds(&self.sel, id) {
                                        let mut gone: Vec<Eid> = Vec::new();
                                        gone.push(id);
                                        proof {
                                            assert(gone@ =~= seq![id]);
                                        }
                                        self.sel = drop_all(&self.sel, &gone);
                                    } else if !holds(&self.sel, id) {
                                        self.sel.push(id);
                                    }
                                }
                            },
                            None => {},
                        }
                    } else {
                        self.join(&r.picks);
                    }
                    proof {
                        assert(self.sel@ == selection(kept, *r, shift, ents@, me));
                    }
                    if self.sel.len() > n {
                        emit(out, Effect::Blip);
                    }
                }
            },
            None => {},
        }
        proof {
            assert(effects_view(out@) =~= base + released(old(self)@, *i, ents@, me).1);
        }
    }

    fn join(&mut self, picks: &Vec<Eid>)
        ensures
            final(self)@ == (ConsoleV { sel: joined_by(old(self)@.sel, picks@), ..old(self)@ }),
            final(self).groups == old(self).groups,
    {
        let mut i: usize = 0;
        while i < picks.len()
            invariant
                i <= picks@.len(),
                self@ == (ConsoleV { sel: joined_by(old(self)@.sel, picks@.take(i as int)), ..old(self)@ }),
                self.groups == old(self).groups,
            decreases picks@.len() - i,
        {
            proof {
                assert(picks@.take(i + 1).drop_last() =~= picks@.take(i as int));
            }
            if !holds(&self.sel, picks[i]) {
                self.sel.push(picks[i]);
            }
            i = i + 1;
        }
        proof {
            assert(picks@.take(i as int) =~= picks@);
        }
    }

    fn right(&mut self, out: &mut Vec<Effect>, i: &Input, ents: &Vec<Ent>, me: u8)
        ensures
            final(self)@ == righted(old(self)@, *i, ents@, me).0,
            effects_view(final(out)@) == effects_view(old(out)@) + righted(old(self)@, *i, ents@, me).1,
            final(self).groups == old(self).groups,
    {
        let ghost base = effects_view(out@);
        if i.right {
            if self.nuke_arm.is_some() {
                self.nuke_arm = None;
            } else if self.placing.is_some() {
                self.placing = None;
            } else if self.amove {
                self.amove = false;
            } else if i.in_view {
                issue_context_order(out, ents, &self.sel, me, &i.spot);
            }
        }
        proof {
            assert(effects_view(out@) =~= base + righted(old(self)@, *i, ents@, me).1);
        }
    }

    fn converse(&mut self, out: &mut Vec<Effect>, buf: String, i: &Input)
        ensures
            final(self)@ == chatting(old(self)@, buf@, *i).0,
            effects_view(final(out)@) == effects_view(old(out)@) + chatting(old(self)@, buf@, *i).1,
            final(self).groups == old(self).groups,
    {
        let ghost base = effects_view(out@);
        let mut line: String = buf;
        let mut k: usize = 0;
        while k < i.typed.len()
            invariant
                k <= i.typed@.len(),
                line@ == typed_all(buf@, i.typed@.take(k as int)),
            decreases i.typed@.len() - k,
        {
            proof {
                assert(i.typed@.take(k + 1).drop_last() =~= i.typed@.take(k as int));
            }
            type_char(&mut line, i.typed[k]);
            k = k + 1;
        }
        proof {
            assert(i.typed@.take(k as int) =~= i.typed@);
        }
        if i.backspace {
            erase_char(&mut line);
        }
        if i.enter {
            match say(line.as_str()) {
                Some(c) => emit(out, Effect::Order(c)),
                None => {},
            }
        }
        proof {
            assert(effects_view(out@) =~= base + chatting(old(self)@, buf@, *i).1);
        }
        if i.enter || i.escape {
            self.chat = None;
        } else {
            self.chat = Some(line);
        }
    }

    /// Do the keys and the mouse reach the live game this frame, and the camera with it?
    pub fn is_free(&self, enter: bool) -> (r: bool)
        ensures
            r == (!self@.show_map && self@.chat is None && !enter),
    {
        !self.show_map && self.chat.is_none() && !enter
    }

    /// One frame of input.
    pub fn handle_input(&mut self, i: &Input, ents: &Vec<Ent>, me: u8) -> (out: Vec<Effect>)
        requires
            old(self).wf(),
            i.digits@.len() == 9,
        ensures
            final(self).wf(),
            (final(self)@, effects_view(out@)) == handled(old(self)@, *i, ents@, me),
    {
        let mut out: Vec<Effect> = Vec::new();
        proof {
            assert(effects_view(out@) =~= Seq::<EffectV>::empty());
        }
        // the world map is a modal overlay: click a sector to travel
        if self.show_map {
            match i.region {
                Some(k) => emit(&mut out, Effect::Travel(k)),
                None => {},
            }
            proof {
                assert(effects_view(out@) =~= handled(old(self)@, *i, ents@, me).1);
            }
            return out;
        }
        // chat capture eats the keyboard
        let line: Option<String> = self.chat.take();
        match line {
            Some(buf) => {
                self.converse(&mut out, buf, i);
                proof {
                    assert(effects_view(out@) =~= chatting(old(self)@, buf@, *i).1);
                    assert(self@ =~= chatting(old(self)@, buf@, *i).0);
                }
                return out;
            },
            None => {},
        }
        if i.enter {
            let fresh = String::new();
            proof {
                assert(fresh@ =~= Seq::<char>::empty());
            }
            self.chat = Some(fresh);
            return out;
        }
        self.command(&mut out, i, ents, me);
        proof {
            assert(Seq::<EffectV>::empty() + commanded(old(self)@, *i, ents@, me).1 =~= commanded(old(self)@, *i, ents@, me).1);
        }
        out
    }

    fn left(&mut self, out: &mut Vec<Effect>, i: &Input, ents: &Vec<Ent>, me: u8)
        ensures
            final(self)@ == lefted(old(self)@, *i, ents@, me).0,
            effects_view(final(out)@) == effects_view(old(out)@) + lefted(old(self)@, *i, ents@, me).1,
            final(self).groups == old(self).groups,
    {
        let ghost base = effects_view(out@);
        match i.left {
            Left::Nowhere => {
                proof {
                    assert(base + Seq::empty() =~= base);
                }
            },
            Left::Minimap => emit_if(out, true, Effect::Jump),
            Left::Sidebar(s) => self.side(out, s, ents, me),
            Left::Field => self.field(out, i.left_shift, &i.spot, ents, me),
        }
    }

    /// The keys and the mouse over the live game.
    fn command(&mut self, out: &mut Vec<Effect>, i: &Input, ents: &Vec<Ent>, me: u8)
        requires
            old(self).wf(),
            i.digits@.len() == 9,
        ensures
            final(self).wf(),
            final(self)@ == commanded(old(self)@, *i, ents@, me).0,
            effects_view(final(out)@) == effects_view(old(out)@) + commanded(old(self)@, *i, ents@, me).1,
    {
        let ghost base = effects_view(out@);
        let ghost (c1, fx1) = keyed(self@, *i, ents@, me);
        let ghost (c2, fx2) = lefted(c1, *i, ents@, me);
        let ghost (c3, fx3) = released(c2, *i, ents@, me);
        let ghost (c4, fx4) = righted(c3, *i, ents@, me);
        let ghost (ca, fa) = keyed_first(self@, *i, ents@, me);
        let ghost (cb, fb) = keyed_then(ca, *i, ents@, me);
        self.keys_first(out, i, ents, me);
        self.keys_then(out, i, ents, me);
        proof {
            chained(base, fa, fb);
        }
        self.left(out, i, ents, me);
        self.let_go(out, i, ents, me);
        self.right(out, i, ents, me);
        proof {
            chained(base, fx1, fx2);
            chained(base, fx1 + fx2, fx3);
            chained(base, fx1 + fx2 + fx3, fx4);
        }
    }
}

// ----------------------------------------------------------------------
// Laws
// ----------------------------------------------------------------------

/// The entities that a command gives orders to.
pub open spec fn ordered(c: CommandV) -> Seq<Eid> {
    match c {
        CommandV::Move { units, to } => units,
        CommandV::AttackMove { units, to } => units,
        CommandV::Attack { units, target } => units,
        CommandV::Harvest { units, tile } => units,
        CommandV::Capture { unit, target } => seq![unit],
        CommandV::Stop { units } => units,
        CommandV::Sell { building } => seq![building],
        CommandV::SetRally { building, at } => seq![building],
        _ => Seq::empty(),
    }
}

/// All of `a` is in `b`.
pub open spec fn within(a: Seq<Eid>, b: Seq<Eid>) -> bool {
    forall|i: int| 0 <= i < a.len() ==> b.contains(#[trigger] a[i])
}

proof fn such_within(ents: Seq<Ent>, ids: Seq<Eid>, w: Want, me: u8)
    ensures
        within(such(ents, ids, w, me), ids),
        forall|i: int|
            0 <= i < such(ents, ids, w, me).len() ==> is_such(ents, #[trigger] such(ents, ids, w, me)[i], w, me),
    decreases ids.len(),
{
    if ids.len() > 0 {
        such_within(ents, ids.drop_last(), w, me);
        let all = such(ents, ids, w, me);
        let head = such(ents, ids.drop_last(), w, me);
        assert forall|i: int| 0 <= i < all.len() implies ids.contains(#[trigger] all[i]) by {
            if i < head.len() {
                assert(ids.drop_last().contains(head[i]));
                let k = choose|k: int| 0 <= k < ids.drop_last().len() && ids.drop_last()[k] == head[i];
                assert(ids[k] == all[i]);
            } else {
                assert(ids[ids.len() - 1] == all[i]);
            }
        }
    }
}

proof fn without_within(ids: Seq<Eid>, out: Seq<Eid>)
    ensures
        within(without(ids, out), ids),
    decreases ids.len(),
{
    if ids.len() > 0 {
        without_within(ids.drop_last(), out);
        let all = without(ids, out);
        let head = without(ids.drop_last(), out);
        assert forall|i: int| 0 <= i < all.len() implies ids.contains(#[trigger] all[i]) by {
            if i < head.len() {
                assert(ids.drop_last().contains(head[i]));
                let k = choose|k: int| 0 <= k < ids.drop_last().len() && ids.drop_last()[k] == head[i];
                assert(ids[k] == all[i]);
            } else {
                assert(ids[ids.len() - 1] == all[i]);
            }
        }
    }
}

proof fn within_chain(a: Seq<Eid>, b: Seq<Eid>, c: Seq<Eid>)
    requires
        within(a, b),
        within(b, c),
    ensures
        within(a, c),
{
    assert forall|i: int| 0 <= i < a.len() implies c.contains(#[trigger] a[i]) by {
        assert(b.contains(a[i]));
        let k = choose|k: int| 0 <= k < b.len() && b[k] == a[i];
        assert(c.contains(b[k]));
    }
}

/// A right click gives orders to selected entities alone.
pub proof fn orders_go_to_the_selection(ents: Seq<Ent>, sel: Seq<Eid>, me: u8, s: Spot, k: int)
    requires
        0 <= k < context_order(ents, sel, me, s).len(),
    ensures
        context_order(ents, sel, me, s)[k] matches EffectV::Order(c) ==> within(ordered(c), sel),
{
    let units = such(ents, sel, Want::Unit, me);
    such_within(ents, sel, Want::Unit, me);
    let wants = seq![Want::Engineer, Want::Armed, Want::Vehicle, Want::Infantry, Want::Harvester];
    assert forall|j: int| 0 <= j < 5 implies within(such(ents, units, #[trigger] wants[j], me), sel) by {
        such_within(ents, units, wants[j], me);
        within_chain(such(ents, units, wants[j], me), units, sel);
    }
    let harv = such(ents, units, Want::Harvester, me);
    without_within(units, harv);
    within_chain(without(units, harv), units, sel);
    let engineers = such(ents, units, Want::Engineer, me);
    assert(wants[0] == Want::Engineer && wants[1] == Want::Armed && wants[2] == Want::Vehicle && wants[3] == Want::Infantry
        && wants[4] == Want::Harvester);
    assert(within(engineers, sel));
    let fx = context_order(ents, sel, me, s);
    if let EffectV::Order(c) = fx[k] {
        match c {
            CommandV::Capture { unit, target } => {
                assert(k < engineers.len() && unit == engineers[k]);
                assert(sel.contains(engineers[k]));
            },
            CommandV::SetRally { building, at } => {
                assert(building == sel[0]);
                assert(sel.contains(sel[0]));
            },
            CommandV::Attack { units, target } => {
                assert(within(such(ents, such(ents, sel, Want::Unit, me), wants[1], me), sel));
            },
            CommandV::Harvest { units, tile } => {
                assert(within(such(ents, such(ents, sel, Want::Unit, me), wants[4], me), sel));
            },
            CommandV::Move { units: us, to } => {
                assert(within(such(ents, units, wants[2], me), sel));
                assert(within(such(ents, units, wants[3], me), sel));
            },
            _ => {},
        }
    }
}

/// While the world map is open, or a line of chat is typed, the game gets no order but what is
/// said.
pub proof fn overlays_swallow_input(c: ConsoleV, i: Input, ents: Seq<Ent>, me: u8, k: int)
    requires
        c.show_map || c.chat is Some,
        0 <= k < handled(c, i, ents, me).1.len(),
    ensures
        handled(c, i, ents, me).1[k] matches EffectV::Order(cmd) ==> !c.show_map && (cmd is Chat || cmd is GiveCredits
            || cmd is Ally),
        handled(c, i, ents, me).0 == (ConsoleV { chat: handled(c, i, ents, me).0.chat, ..c }),
{
}

/// A right click in a mode leaves the mode and orders nothing.
pub proof fn right_click_cancels(c: ConsoleV, i: Input, ents: Seq<Ent>, me: u8)
    requires
        i.right,
        c.nuke_arm is Some || c.placing is Some || c.amove,
    ensures
        righted(c, i, ents, me).1.len() == 0,
        righted(c, i, ents, me).0.sel == c.sel,
{
}

/// After the check only living entities of ours are selected.
pub proof fn only_the_living_are_selected(c: ConsoleV, ents: Seq<Ent>, me: u8, k: int)
    requires
        0 <= k < validated(c, ents, me).sel.len(),
    ensures
        is_such(ents, validated(c, ents, me).sel[k], Want::Living, me),
        c.sel.contains(validated(c, ents, me).sel[k]),
{
    such_within(ents, c.sel, Want::Living, me);
}

/// A control group recalls the selection that was stored, as far as it still lives.
pub proof fn groups_recall_what_was_stored(c: ConsoleV, n: int, ents: Seq<Ent>, me: u8)
    requires
        0 <= n < c.groups.len(),
        c.sel.len() > 0,
    ensures
        grouped(grouped(c, n, true, ents, me), n, false, ents, me).sel == such(ents, c.sel, Want::Living, me),
{
}

/// Nothing is selected twice by a box.
pub proof fn boxes_select_once(sel: Seq<Eid>, more: Seq<Eid>)
    requires
        sel.no_duplicates(),
    ensures
        joined_by(sel, more).no_duplicates(),
        within(more, joined_by(sel, more)),
        within(sel, joined_by(sel, more)),
    decreases more.len(),
{
    let all = joined_by(sel, more);
    if more.len() > 0 {
        boxes_select_once(sel, more.drop_last());
        let head = joined_by(sel, more.drop_last());
        assert forall|i: int| 0 <= i < more.len() implies all.contains(#[trigger] more[i]) by {
            if i < more.len() - 1 {
                assert(head.contains(more.drop_last()[i]));
                let k = choose|k: int| 0 <= k < head.len() && head[k] == more[i];
                assert(all[k] == more[i]);
            } else if !head.contains(more.last()) {
                assert(all[all.len() - 1] == more[i]);
            }
        }
        assert forall|i: int| 0 <= i < sel.len() implies all.contains(#[trigger] sel[i]) by {
            assert(head.contains(sel[i]));
            let k = choose|k: int| 0 <= k < head.len() && head[k] == sel[i];
            assert(all[k] == sel[i]);
        }
    } else {
        assert forall|i: int| 0 <= i < sel.len() implies all.contains(#[trigger] sel[i]) by {
            assert(all[i] == sel[i]);
        }
    }
}

} // verus!
