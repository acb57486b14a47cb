//! What the client decides from frame to frame: keys that open and close the map and the pause
//! menu, bots that have no brain yet, and what the camera looks at.

use crate::console::{Console, ConsoleV, Ent};
use crate::effects::VisEvent;
use crate::menu::Overlay;
use crate::scene::{busiest_of, busiest_rival};
use vstd::prelude::*;

verus! {

// ----------------------------------------------------------------------
// Keys
// ----------------------------------------------------------------------

/// `m` opens and closes the map, and escape closes it; neither while a line is typed.
pub open spec fn map_toggled(c: ConsoleV, m: bool, esc: bool) -> bool {
    if c.chat is None && (m || (c.show_map && esc)) {
        !c.show_map
    } else {
        c.show_map
    }
}

/// Does escape open the pause menu? Only where nothing else is waiting for it: no line is typed,
/// the map is closed and was so before, and nothing is being placed or aimed.
pub open spec fn pauses(c: ConsoleV, o: Overlay, demo: bool, m: bool, esc: bool) -> bool {
    &&& esc
    &&& !demo
    &&& o == Overlay::Closed
    &&& c.chat is None
    &&& !c.show_map
    &&& !map_toggled(c, m, esc)
    &&& c.placing is None
    &&& !c.amove
}

/// The keys that open and close the map and the pause menu. Tells whether the menu opened: that
/// escape must not close it again.
pub fn front_keys(c: &mut Console, overlay: &mut Overlay, demo: bool, m: bool, esc: bool) -> (opened: bool)
    ensures
        final(c)@ == (ConsoleV { show_map: map_toggled(old(c)@, m, esc), ..old(c)@ }),
        opened == pauses(old(c)@, *old(overlay), demo, m, esc),
        *final(overlay) == (if opened {
            Overlay::Pause
        } else {
            *old(overlay)
        }),
{
    let was_open: bool = c.show_map;
    let typing: bool = c.chat.is_some();
    if !typing && (m || (was_open && esc)) {
        c.show_map = !was_open;
    }
    proof {
        assert(c@ =~= (ConsoleV { show_map: map_toggled(old(c)@, m, esc), ..old(c)@ }));
    }
    let closed: bool = match overlay {
        Overlay::Closed => true,
        _ => false,
    };
    let opened: bool = esc && !demo && closed && !typing && !was_open && !c.show_map && c.placing.is_none() && !c.amove;
    if opened {
        *overlay = Overlay::Pause;
    }
    opened
}

// ----------------------------------------------------------------------
// Bots
// ----------------------------------------------------------------------

/// The bots among the first `n` that nobody steers yet.
pub open spec fn unsteered_of(driven: Seq<u8>, steered: Seq<u8>, n: int) -> Seq<u8>
    decreases n,
{
    if n <= 0 {
        Seq::empty()
    } else if steered.contains(driven[n - 1]) {
        unsteered_of(driven, steered, n - 1)
    } else {
        unsteered_of(driven, steered, n - 1).push(driven[n - 1])
    }
}

/// The bots that this peer drives but does not steer yet: after a migration it may have inherited
/// the dead host's.
pub fn unsteered(driven: &Vec<u8>, steered: &Vec<u8>) -> (r: Vec<u8>)
    ensures
        r@ == unsteered_of(driven@, steered@, driven@.len() as int),
{
    let mut r: Vec<u8> = Vec::new();
    let mut i: usize = 0;
    while i < driven.len()
        invariant
            i <= driven@.len(),
            r@ == unsteered_of(driven@, steered@, i as int),
        decreases driven@.len() - i,
    {
        let p: u8 = driven[i];
        let mut found: bool = false;
        let mut j: usize = 0;
        while j < steered.len() && !found
            invariant
                j <= steered@.len(),
                found ==> steered@.contains(p),
                !found ==> forall|k: int| 0 <= k < j ==> steered@[k] != p,
            decreases steered@.len() - j,
        {
            if steered[j] == p {
                found = true;
                proof {
                    assert(steered@[j as int] == p);
                }
            }
            j = j + 1;
        }
        if !found {
            r.push(p);
        }
        i = i + 1;
    }
    r
}

// ----------------------------------------------------------------------
// The camera
// ----------------------------------------------------------------------

/// The first entity of an owner, if `yard` is given the first of that kind.
pub open spec fn first_of(ents: Seq<Ent>, owner: u8, yard: Option<u8>, from: int) -> Option<int>
    decreases ents.len() - from,
{
    if from >= ents.len() {
        None
    } else if ents[from].owner == owner && (yard is None || yard == Some(ents[from].kind)) {
        Some(from)
    } else {
        first_of(ents, owner, yard, from + 1)
    }
}

fn first(ents: &Vec<Ent>, owner: u8, yard: Option<u8>) -> (r: Option<usize>)
    ensures
        r is Some <==> first_of(ents@, owner, yard, 0) is Some,
        r matches Some(k) ==> first_of(ents@, owner, yard, 0) == Some(k as int) && k < ents@.len(),
{
    let mut i: usize = 0;
    while i < ents.len()
        invariant
            i <= ents@.len(),
            first_of(ents@, owner, yard, 0) == first_of(ents@, owner, yard, i as int),
        decreases ents@.len() - i,
    {
        let e: Ent = ents[i];
        let kind: bool = match yard {
            None => true,
            Some(k) => k == e.kind,
        };
        if e.owner == owner && kind {
            return Some(i);
        }
        i = i + 1;
    }
    None
}

/// What a base is looked at by: its first construction yard, or else whatever it has first.
pub open spec fn home_of(ents: Seq<Ent>, owner: u8, yard: u8) -> Option<int> {
    match first_of(ents, owner, Some(yard), 0) {
        Some(k) => Some(k),
        None => first_of(ents, owner, None, 0),
    }
}

/// What the camera centers on when a player settles: their first construction yard, or else
/// whatever they have first.
pub fn home(ents: &Vec<Ent>, owner: u8, yard: u8) -> (r: Option<usize>)
    ensures
        r is Some <==> home_of(ents@, owner, yard) is Some,
        r matches Some(k) ==> home_of(ents@, owner, yard) == Some(k as int),
{
    match first(ents, owner, Some(yard)) {
        Some(k) => Some(k),
        None => first(ents, owner, None),
    }
}

/// What a shot of the reel looks at.
#[derive(Clone, Copy, Debug, PartialEq, Eq, Structural)]
pub enum Focus {
    /// the entity at a place of the list
    Ent(usize),
    /// the event at a place of the list
    Event(usize),
}

/// The first building of an owner.
pub open spec fn first_building(ents: Seq<Ent>, owner: u8, from: int) -> Option<int>
    decreases ents.len() - from,
{
    if from >= ents.len() {
        None
    } else if ents[from].owner == owner && ents[from].building {
        Some(from)
    } else {
        first_building(ents, owner, from + 1)
    }
}

/// The first unit that somebody owns.
pub open spec fn first_unit(ents: Seq<Ent>, neutral: u8, from: int) -> Option<int>
    decreases ents.len() - from,
{
    if from >= ents.len() {
        None
    } else if ents[from].owner != neutral && ents[from].unit {
        Some(from)
    } else {
        first_unit(ents, neutral, from + 1)
    }
}

/// The first shot or death.
pub open spec fn first_action(fx: Seq<VisEvent>, from: int) -> Option<int>
    decreases fx.len() - from,
{
    if from >= fx.len() {
        None
    } else if fx[from] is Shot || fx[from] is Die {
        Some(from)
    } else {
        first_action(fx, from + 1)
    }
}

/// The owners of the buildings, in the order of the list.
pub open spec fn building_owners(ents: Seq<Ent>) -> Seq<u8>
    decreases ents.len(),
{
    if ents.len() == 0 {
        Seq::empty()
    } else if ents.last().building {
        building_owners(ents.drop_last()).push(ents.last().owner)
    } else {
        building_owners(ents.drop_last())
    }
}

/// The first shot is of our construction yard, the second of the rival base with the most
/// buildings (its yard, or else its first building), the others of the fight: the first shot or
/// death to be seen, or else the first unit of anybody's.
pub open spec fn focus_of(shot: nat, me: u8, neutral: u8, yard: u8, ents: Seq<Ent>, fx: Seq<VisEvent>) -> Option<Focus> {
    if shot == 0 {
        ent_focus(first_of(ents, me, Some(yard), 0))
    } else if shot == 1 {
        match busiest_of(building_owners(ents), me) {
            Some(q) => match first_of(ents, q, Some(yard), 0) {
                Some(k) => ent_focus(Some(k)),
                None => ent_focus(first_building(ents, q, 0)),
            },
            None => None,
        }
    } else {
        match first_action(fx, 0) {
            Some(k) => Some(Focus::Event(k as usize)),
            None => ent_focus(first_unit(ents, neutral, 0)),
        }
    }
}

pub open spec fn ent_focus(k: Option<int>) -> Option<Focus> {
    match k {
        Some(k) => Some(Focus::Ent(k as usize)),
        None => None,
    }
}

fn owners_of_buildings(ents: &Vec<Ent>) -> (r: Vec<u8>)
    ensures
        r@ == building_owners(ents@),
{
    let mut r: Vec<u8> = Vec::new();
    let mut i: usize = 0;
    while i < ents.len()
        invariant
            i <= ents@.len(),
            r@ == building_owners(ents@.take(i as int)),
        decreases ents@.len() - i,
    {
        proof {
            assert(ents@.take(i + 1).drop_last() =~= ents@.take(i as int));
        }
        if ents[i].building {
            r.push(ents[i].owner);
        }
        i = i + 1;
    }
    proof {
        assert(ents@.take(i as int) =~= ents@);
    }
    r
}

/// What a shot of the reel looks at.
pub fn demo_focus(shot: usize, me: u8, neutral: u8, yard: u8, ents: &Vec<Ent>, fx: &Vec<VisEvent>) -> (r: Option<Focus>)
    ensures
        r == focus_of(shot as nat, me, neutral, yard, ents@, fx@),
        r matches Some(Focus::Ent(k)) ==> k < ents@.len(),
        r matches Some(Focus::Event(k)) ==> k < fx@.len(),
{
    if shot == 0 {
        return match first(ents, me, Some(yard)) {
            Some(k) => Some(Focus::Ent(k)),
            None => None,
        };
    }
    if shot == 1 {
        let owners: Vec<u8> = owners_of_buildings(ents);
        let q: u8 = match busiest_rival(&owners, me) {
            Some(q) => q,
            None => {
                return None;
            },
        };
        if let Some(k) = first(ents, q, Some(yard)) {
            return Some(Focus::Ent(k));
        }
        let mut i: usize = 0;
        while i < ents.len()
            invariant
                i <= ents@.len(),
                first_building(ents@, q, 0) == first_building(ents@, q, i as int),
                focus_of(shot as nat, me, neutral, yard, ents@, fx@) == ent_focus(first_building(ents@, q, 0)),
            decreases ents@.len() - i,
        {
            if ents[i].owner == q && ents[i].building {
                return Some(Focus::Ent(i));
            }
            i = i + 1;
        }
        return None;
    }
    let mut i: usize = 0;
    while i < fx.len()
        invariant
            i <= fx@.len(),
            shot > 1,
            first_action(fx@, 0) == first_action(fx@, i as int),
        decreases fx@.len() - i,
    {
        match fx[i] {
            VisEvent::Shot { .. } | VisEvent::Die { .. } => {
                return Some(Focus::Event(i));
            },
            _ => {},
        }
        i = i + 1;
    }
    let mut j: usize = 0;
    while j < ents.len()
        invariant
            j <= ents@.len(),
            first_unit(ents@, neutral, 0) == first_unit(ents@, neutral, j as int),
            focus_of(shot as nat, me, neutral, yard, ents@, fx@) == ent_focus(first_unit(ents@, neutral, 0)),
        decreases ents@.len() - j,
    {
        if ents[j].owner != neutral && ents[j].unit {
            return Some(Focus::Ent(j));
        }
        j = j + 1;
    }
    None
}

// ----------------------------------------------------------------------
// Laws
// ----------------------------------------------------------------------

/// One escape does one thing: the press that closes the map does not pause the game.
pub proof fn escape_does_one_thing(c: ConsoleV, o: Overlay, demo: bool, m: bool)
    requires
        c.show_map || c.chat is Some || c.placing is Some || c.amove || o != Overlay::Closed,
    ensures
        !pauses(c, o, demo, m, true),
{
}

/// Every bot that is driven is steered once the new ones have a brain, and nobody steers one
/// twice.
pub proof fn every_bot_gets_a_brain(driven: Seq<u8>, steered: Seq<u8>, n: int, i: int)
    requires
        0 <= i < n <= driven.len(),
    ensures
        steered.contains(driven[i]) != unsteered_of(driven, steered, n).contains(driven[i]),
    decreases n,
{
    let now = unsteered_of(driven, steered, n);
    let rest = unsteered_of(driven, steered, n - 1);
    if i < n - 1 {
        every_bot_gets_a_brain(driven, steered, n - 1, i);
        if !steered.contains(driven[n - 1]) {
            if rest.contains(driven[i]) {
                let k = rest.index_of(driven[i]);
                assert(now[k] == driven[i]);
            } else {
                assert(driven[n - 1] != driven[i]);
                assert forall|k: int| 0 <= k < now.len() implies now[k] != driven[i] by {
                    if k < rest.len() {
                        assert(now[k] == rest[k]);
                    }
                }
            }
        }
    } else if steered.contains(driven[i]) {
        none_steered_twice(driven, steered, n - 1, driven[i]);
    } else {
        assert(now[now.len() - 1] == driven[i]);
    }
}

proof fn none_steered_twice(driven: Seq<u8>, steered: Seq<u8>, n: int, p: u8)
    requires
        n <= driven.len(),
        steered.contains(p),
    ensures
        !unsteered_of(driven, steered, n).contains(p),
    decreases n,
{
    if n > 0 {
        none_steered_twice(driven, steered, n - 1, p);
        let rest = unsteered_of(driven, steered, n - 1);
        if !steered.contains(driven[n - 1]) {
            let now = rest.push(driven[n - 1]);
            assert forall|k: int| 0 <= k < now.len() implies now[k] != p by {
                if k < rest.len() {
                    assert(now[k] == rest[k]);
                }
            }
        }
    }
}

} // verus!
