//! What the player's clicks and keys are for: which orders each of them gives, to whom, and what becomes
//! of the selection and the modes.

use crate::command::{CommandV, Eid};
use crate::console::{
    context_order, ent_of, first_own, first_trainer, fits, grouped_all, handled, is_such, joined_by, keyed,
    such, trains, validated, without, ConsoleV, EffectV, Ent, Hue, Input, Left, Notice, Side, Spot, Want,
};
use vstd::prelude::*;
use vstd::utf8::encode_utf8;

verus! {

// ----------------------------------------------------------------------
// Who is who
// ----------------------------------------------------------------------

/// Is the entity the one that the handle stands for: the first with it?
pub open spec fn stands_for(ents: Seq<Ent>, id: Eid, e: Ent) -> bool {
    exists|k: int| 0 <= k < ents.len() && #[trigger] ents[k] == e && e.id == id && forall|j: int| 0 <= j < k ==> (
    #[trigger] ents[j]).id != id
}

/// What an entity can be to an order.
pub enum Sort {
    /// alive, and owned by the player
    Living(u8),
    Unit,
    Engineer,
    /// a unit that can deal damage
    Fighter,
    /// a unit on wheels
    Vehicle,
    /// a unit on foot
    Soldier,
    Harvester,
    /// a unit that does not harvest
    Follower,
}

pub open spec fn is_sort(e: Ent, sort: Sort) -> bool {
    match sort {
        Sort::Living(me) => e.owner == me && e.hp > 0,
        Sort::Unit => e.unit,
        Sort::Engineer => e.unit && e.engineer,
        Sort::Fighter => e.unit && e.armed,
        Sort::Vehicle => e.unit && !e.infantry,
        Sort::Soldier => e.unit && e.infantry,
        Sort::Harvester => e.unit && e.harvester,
        Sort::Follower => e.unit && !e.harvester,
    }
}

pub open spec fn is_a(ents: Seq<Ent>, id: Eid, sort: Sort) -> bool {
    exists|e: Ent| #[trigger] stands_for(ents, id, e) && is_sort(e, sort)
}

/// Those of the handles that stand for such entities, in their order.
pub open spec fn of_sort(ents: Seq<Ent>, ids: Seq<Eid>, sort: Sort) -> Seq<Eid>
    decreases ids.len(),
{
    if ids.len() == 0 {
        Seq::empty()
    } else if is_a(ents, ids.last(), sort) {
        of_sort(ents, ids.drop_last(), sort).push(ids.last())
    } else {
        of_sort(ents, ids.drop_last(), sort)
    }
}

proof fn finding(ents: Seq<Ent>, id: Eid)
    ensures
        ent_of(ents, id) matches Some(e) ==> stands_for(ents, id, e),
        forall|e: Ent| #[trigger] stands_for(ents, id, e) ==> ent_of(ents, id) == Some(e),
    decreases ents.len(),
{
    if ents.len() > 0 {
        let rest = ents.drop_first();
        finding(rest, id);
        if ents[0].id == id {
            assert(stands_for(ents, id, ents[0]));
            assert forall|e: Ent| #[trigger] stands_for(ents, id, e) implies e == ents[0] by {
                let k = choose|k: int| 0 <= k < ents.len() && #[trigger] ents[k] == e && e.id == id && forall|j: int|
                    0 <= j < k ==> (#[trigger] ents[j]).id != id;
                if k > 0 {
                    assert(ents[0].id != id);
                }
            }
        } else {
            if let Some(e) = ent_of(rest, id) {
                let k = choose|k: int| 0 <= k < rest.len() && #[trigger] rest[k] == e && e.id == id && forall|j: int|
                    0 <= j < k ==> (#[trigger] rest[j]).id != id;
                assert(ents[k + 1] == e);
                assert forall|j: int| 0 <= j < k + 1 implies (#[trigger] ents[j]).id != id by {
                    if j > 0 {
                        assert(rest[j - 1] == ents[j]);
                    }
                }
                assert(stands_for(ents, id, e));
            }
            assert forall|e: Ent| #[trigger] stands_for(ents, id, e) implies stands_for(rest, id, e) by {
                let k = choose|k: int| 0 <= k < ents.len() && #[trigger] ents[k] == e && e.id == id && forall|j: int|
                    0 <= j < k ==> (#[trigger] ents[j]).id != id;
                assert(k > 0);
                assert(rest[k - 1] == e);
                assert forall|j: int| 0 <= j < k - 1 implies (#[trigger] rest[j]).id != id by {
                    assert(ents[j + 1].id != id);
                }
            }
        }
    }
}

proof fn being(ents: Seq<Ent>, id: Eid, sort: Sort)
    ensures
        is_a(ents, id, sort) <==> (ent_of(ents, id) matches Some(e) && is_sort(e, sort)),
{
    finding(ents, id);
    if let Some(e) = ent_of(ents, id) {
        assert(stands_for(ents, id, e));
    }
    if is_a(ents, id, sort) {
        let e = choose|e: Ent| #[trigger] stands_for(ents, id, e) && is_sort(e, sort);
        assert(ent_of(ents, id) == Some(e));
    }
}

proof fn picking(ents: Seq<Ent>, ids: Seq<Eid>, w: Want, me: u8, sort: Sort)
    requires
        forall|e: Ent| #[trigger] fits(e, w, me) == is_sort(e, sort),
    ensures
        such(ents, ids, w, me) == of_sort(ents, ids, sort),
    decreases ids.len(),
{
    if ids.len() > 0 {
        picking(ents, ids.drop_last(), w, me, sort);
        being(ents, ids.last(), sort);
    }
}

proof fn picking_twice(ents: Seq<Ent>, ids: Seq<Eid>, w: Want, me: u8, sort: Sort)
    requires
        forall|e: Ent| #![trigger fits(e, w, me)] #![trigger is_sort(e, sort)] (e.unit && fits(e, w, me)) == is_sort(e, sort),
    ensures
        such(ents, such(ents, ids, Want::Unit, me), w, me) == of_sort(ents, ids, sort),
    decreases ids.len(),
{
    if ids.len() > 0 {
        let head = such(ents, ids.drop_last(), Want::Unit, me);
        picking_twice(ents, ids.drop_last(), w, me, sort);
        being(ents, ids.last(), sort);
        assert(head.push(ids.last()).drop_last() =~= head);
        if let Some(e) = ent_of(ents, ids.last()) {
            assert((e.unit && fits(e, w, me)) == is_sort(e, sort));
        }
    }
}

proof fn such_members(ents: Seq<Ent>, ids: Seq<Eid>, w: Want, me: u8, id: Eid)
    ensures
        such(ents, ids, w, me).contains(id) <==> ids.contains(id) && is_such(ents, id, w, me),
    decreases ids.len(),
{
    let all = such(ents, ids, w, me);
    if ids.len() > 0 {
        let rest = ids.drop_last();
        let head = such(ents, rest, w, me);
        such_members(ents, rest, w, me, id);
        if all.contains(id) {
            let i = choose|i: int| 0 <= i < all.len() && all[i] == id;
            if i < head.len() {
                assert(head[i] == id);
                let j = choose|j: int| 0 <= j < rest.len() && rest[j] == id;
                assert(ids[j] == id);
            } else {
                assert(ids[ids.len() - 1] == id);
            }
        }
        if ids.contains(id) && is_such(ents, id, w, me) {
            let j = choose|j: int| 0 <= j < ids.len() && ids[j] == id;
            if j < rest.len() {
                assert(rest[j] == id);
                let i = choose|i: int| 0 <= i < head.len() && head[i] == id;
                assert(all[i] == id);
            } else {
                assert(all[all.len() - 1] == id);
            }
        }
    }
}

/// The units among the handles without its harvesters, a step at a time: `all` stands for the harvesters
/// of a longer list.
proof fn following(ents: Seq<Ent>, ids: Seq<Eid>, more: Seq<Eid>, me: u8)
    requires
        forall|id: Eid| #[trigger] ids.contains(id) ==> more.contains(id),
    ensures
        without(such(ents, ids, Want::Unit, me), such(ents, such(ents, more, Want::Unit, me), Want::Harvester, me)) == of_sort(
            ents,
            ids,
            Sort::Follower,
        ),
    decreases ids.len(),
{
    let harv = such(ents, such(ents, more, Want::Unit, me), Want::Harvester, me);
    if ids.len() > 0 {
        let rest = ids.drop_last();
        let id = ids.last();
        assert forall|x: Eid| #[trigger] rest.contains(x) implies more.contains(x) by {
            let j = choose|j: int| 0 <= j < rest.len() && rest[j] == x;
            assert(ids[j] == x);
            assert(ids.contains(x));
        }
        following(ents, rest, more, me);
        let head = such(ents, rest, Want::Unit, me);
        assert(head.push(id).drop_last() =~= head);
        being(ents, id, Sort::Follower);
        assert(ids[ids.len() - 1] == id);
        assert(ids.contains(id));
        assert(more.contains(id));
        such_members(ents, more, Want::Unit, me, id);
        such_members(ents, such(ents, more, Want::Unit, me), Want::Harvester, me, id);
    }
}

// ----------------------------------------------------------------------
// Right clicks
// ----------------------------------------------------------------------

/// A click on somebody else's building sends the selected engineers to capture it, each by an order of its
/// own.
pub proof fn engineers_capture(ents: Seq<Ent>, sel: Seq<Eid>, me: u8, s: Spot, id: Eid, e: Ent)
    requires
        s.hit == Some(id),
        stands_for(ents, id, e),
        e.owner != me,
        e.building,
        of_sort(ents, sel, Sort::Engineer).len() > 0,
    ensures
        ({
            let who = of_sort(ents, sel, Sort::Engineer);
            let fx = context_order(ents, sel, me, s);
            &&& fx.len() == who.len() + 1
            &&& forall|k: int|
                0 <= k < who.len() ==> #[trigger] fx[k] == EffectV::Order(CommandV::Capture { unit: who[k], target: id })
            &&& fx.last() == EffectV::Mark(s.tile, Hue::Capture)
        }),
{
    finding(ents, id);
    picking_twice(ents, sel, Want::Engineer, me, Sort::Engineer);
}

/// A click on what belongs to somebody else sends all the selected units that can fight to attack it, be it
/// a unit or a building; only where it is a building that engineers are there to capture they leave it to
/// them.
pub proof fn fighters_attack(ents: Seq<Ent>, sel: Seq<Eid>, me: u8, s: Spot, id: Eid, e: Ent)
    requires
        s.hit == Some(id),
        stands_for(ents, id, e),
        e.owner != me,
        !e.building || of_sort(ents, sel, Sort::Engineer).len() == 0,
        of_sort(ents, sel, Sort::Fighter).len() > 0,
    ensures
        context_order(ents, sel, me, s) == seq![
            EffectV::Order(CommandV::Attack { units: of_sort(ents, sel, Sort::Fighter), target: id }),
            EffectV::Mark(s.tile, Hue::Attack),
        ],
{
    finding(ents, id);
    picking_twice(ents, sel, Want::Engineer, me, Sort::Engineer);
    picking_twice(ents, sel, Want::Armed, me, Sort::Fighter);
}

/// A click on a depot of ours sends the selected vehicles there to be repaired; one on a clinic sends the
/// soldiers to be healed.
pub proof fn the_hurt_are_sent_for_help(ents: Seq<Ent>, sel: Seq<Eid>, me: u8, s: Spot, id: Eid, e: Ent)
    requires
        s.hit == Some(id),
        stands_for(ents, id, e),
        e.owner == me,
    ensures
        e.depot && of_sort(ents, sel, Sort::Vehicle).len() > 0 ==> context_order(ents, sel, me, s) == seq![
            EffectV::Order(CommandV::Move { units: of_sort(ents, sel, Sort::Vehicle), to: s.tile }),
            EffectV::Mark(s.tile, Hue::Repair),
            EffectV::Say(Notice::ToRepairs),
        ],
        e.clinic && !e.depot && of_sort(
            ents,
            sel,
            Sort::Soldier,
        ).len() > 0 ==> context_order(ents, sel, me, s) == seq![
            EffectV::Order(CommandV::Move { units: of_sort(ents, sel, Sort::Soldier), to: s.tile }),
            EffectV::Mark(s.tile, Hue::Heal),
            EffectV::Say(Notice::ToMedBay),
        ],
{
    finding(ents, id);
    picking_twice(ents, sel, Want::Vehicle, me, Sort::Vehicle);
    picking_twice(ents, sel, Want::Infantry, me, Sort::Soldier);
}

/// Does the click call for nothing on what it hit: it hit nothing that stands, something of another player's
/// with neither engineers for it nor fighters, or something of ours that helps none of the selected?
pub open spec fn hits_nothing(ents: Seq<Ent>, sel: Seq<Eid>, me: u8, s: Spot) -> bool {
    forall|e: Ent|
        s.hit is Some && #[trigger] stands_for(ents, s.hit->0, e) ==> if e.owner != me {
            (e.building ==> of_sort(ents, sel, Sort::Engineer).len() == 0) && of_sort(ents, sel, Sort::Fighter).len() == 0
        } else {
            (e.depot ==> of_sort(ents, sel, Sort::Vehicle).len() == 0) && (e.clinic && !e.depot ==> of_sort(
                ents,
                sel,
                Sort::Soldier,
            ).len() == 0)
        }
}

proof fn hitting_nothing(ents: Seq<Ent>, sel: Seq<Eid>, me: u8, s: Spot)
    requires
        hits_nothing(ents, sel, me, s),
    ensures
        s.hit matches Some(id) ==> (ent_of(ents, id) matches Some(e) ==> crate::console::order_on(
            ents,
            such(ents, sel, Want::Unit, me),
            me,
            e,
            s.tile,
        ) is None),
{
    if let Some(id) = s.hit {
        finding(ents, id);
        picking_twice(ents, sel, Want::Engineer, me, Sort::Engineer);
        picking_twice(ents, sel, Want::Armed, me, Sort::Fighter);
        picking_twice(ents, sel, Want::Vehicle, me, Sort::Vehicle);
        picking_twice(ents, sel, Want::Infantry, me, Sort::Soldier);
        if let Some(e) = ent_of(ents, id) {
            assert(stands_for(ents, id, e));
        }
    }
}

/// A click on a resource sends the selected harvesters to harvest it and the other units along, and marks
/// what it yields.
pub proof fn harvesters_harvest(ents: Seq<Ent>, sel: Seq<Eid>, me: u8, s: Spot, kind: u8)
    requires
        hits_nothing(ents, sel, me, s),
        s.resource == Some(kind),
        of_sort(ents, sel, Sort::Harvester).len() > 0,
    ensures
        ({
            let fx = context_order(ents, sel, me, s);
            let rest = of_sort(ents, sel, Sort::Follower);
            let hue = if kind == 1 {
                Hue::Wood
            } else if kind == 2 {
                Hue::Stone
            } else {
                Hue::Ore
            };
            let harvest = EffectV::Order(CommandV::Harvest { units: of_sort(ents, sel, Sort::Harvester), tile: s.tile });
            &&& rest.len() == 0 ==> fx == seq![harvest, EffectV::Mark(s.tile, hue)]
            &&& rest.len() > 0 ==> fx == seq![
                harvest,
                EffectV::Order(CommandV::Move { units: rest, to: s.tile }),
                EffectV::Mark(s.tile, hue),
            ]
        }),
{
    hitting_nothing(ents, sel, me, s);
    picking_twice(ents, sel, Want::Harvester, me, Sort::Harvester);
    following(ents, sel, sel, me);
    let fx = context_order(ents, sel, me, s);
    let rest = of_sort(ents, sel, Sort::Follower);
    let harvest = EffectV::Order(CommandV::Harvest { units: of_sort(ents, sel, Sort::Harvester), tile: s.tile });
    if rest.len() == 0 {
        assert(fx =~= seq![harvest, fx.last()]);
    } else {
        assert(fx =~= seq![harvest, EffectV::Order(CommandV::Move { units: rest, to: s.tile }), fx.last()]);
    }
}

/// Any other click sends the selected units there. Where none is selected, a building of ours that is the
/// first of the selection gets its rally point there; otherwise nothing is ordered.
pub proof fn units_go_where_they_are_sent(ents: Seq<Ent>, sel: Seq<Eid>, me: u8, s: Spot)
    requires
        hits_nothing(ents, sel, me, s),
        s.resource is None || of_sort(ents, sel, Sort::Harvester).len() == 0,
    ensures
        ({
            let fx = context_order(ents, sel, me, s);
            let units = of_sort(ents, sel, Sort::Unit);
            let rallies = sel.len() > 0 && exists|e: Ent| #[trigger] stands_for(ents, sel[0], e) && e.building && e.owner == me;
            &&& units.len() > 0 ==> fx == seq![
                EffectV::Order(CommandV::Move { units, to: s.tile }),
                EffectV::Mark(s.tile, Hue::Move),
            ]
            &&& units.len() == 0 && rallies ==> fx == seq![
                EffectV::Order(CommandV::SetRally { building: sel[0], at: s.tile }),
                EffectV::Mark(s.tile, Hue::Rally),
            ]
            &&& units.len() == 0 && !rallies ==> fx.len() == 0
        }),
{
    hitting_nothing(ents, sel, me, s);
    picking_twice(ents, sel, Want::Harvester, me, Sort::Harvester);
    picking(ents, sel, Want::Unit, me, Sort::Unit);
    if sel.len() > 0 {
        finding(ents, sel[0]);
        if let Some(e) = ent_of(ents, sel[0]) {
            assert(stands_for(ents, sel[0], e));
        }
    }
}

// ----------------------------------------------------------------------
// Keys
// ----------------------------------------------------------------------

/// Does the input reach the game: is neither the world map open nor a line of chat typed or begun?
pub open spec fn plays(c: ConsoleV, i: Input) -> bool {
    !c.show_map && c.chat is None && !i.enter
}

/// No hotkey is pressed.
pub open spec fn no_key(i: Input) -> bool {
    &&& !i.f1 && !i.f5 && !i.escape
    &&& !i.key_a && !i.key_s && !i.key_x && !i.key_h && !i.key_n
    &&& no_digit(i)
}

pub open spec fn no_digit(i: Input) -> bool {
    forall|k: int| 0 <= k < 9 ==> !#[trigger] i.digits@[k]
}

/// The mouse buttons are left alone.
pub open spec fn no_click(i: Input) -> bool {
    i.left is Nowhere && i.release is None && !i.right
}

proof fn no_groups(c: ConsoleV, n: nat, i: Input, ents: Seq<Ent>, me: u8)
    requires
        n <= 9,
        no_digit(i),
    ensures
        grouped_all(c, n, i, ents, me) == c,
    decreases n,
{
    if n > 0 {
        no_groups(c, (n - 1) as nat, i, ents, me);
        assert(!i.digits@[n - 1]);
    }
}

proof fn keys_rest(c: ConsoleV, i: Input, ents: Seq<Ent>, me: u8)
    requires
        no_key(i),
    ensures
        keyed(c, i, ents, me) == (c, Seq::<EffectV>::empty()),
{
    no_groups(c, 9, i, ents, me);
    assert(keyed(c, i, ents, me).1 =~= Seq::<EffectV>::empty());
}

/// Nothing pressed, nothing done.
pub proof fn idle_input_does_nothing(c: ConsoleV, i: Input, ents: Seq<Ent>, me: u8)
    requires
        plays(c, i),
        no_key(i),
        no_click(i),
    ensures
        handled(c, i, ents, me).0 == c,
        handled(c, i, ents, me).1.len() == 0,
{
    keys_rest(c, i, ents, me);
}

/// F1 shows and hides the help, F5 saves the world, H shows the base, and A has the next click be an
/// attack-move if a unit is selected; none of them does anything else.
pub proof fn keys_do_one_thing(c: ConsoleV, i: Input, ents: Seq<Ent>, me: u8)
    requires
        plays(c, i),
        no_click(i),
        no_digit(i),
        !i.escape && !i.key_s && !i.key_x && !i.key_n,
    ensures
        ({
            let (c1, fx) = handled(c, i, ents, me);
            let units = of_sort(ents, c.sel, Sort::Unit);
            &&& c1 == (ConsoleV {
                help: c.help != i.f1,
                amove: c.amove || (i.key_a && units.len() > 0),
                ..c
            })
            &&& fx.contains(EffectV::Save) == i.f5
            &&& fx.contains(EffectV::Center) == i.key_h
            &&& fx.len() == (if i.f5 {
                1int
            } else {
                0int
            }) + (if i.key_h {
                1int
            } else {
                0int
            })
        }),
{
    picking(ents, c.sel, Want::Unit, me, Sort::Unit);
    no_groups(keyed_c(c, i, ents, me), 9, i, ents, me);
    let fx = handled(c, i, ents, me).1;
    if i.f5 && i.key_h {
        assert(fx =~= seq![EffectV::Save, EffectV::Center]);
        assert(fx[0] == EffectV::Save && fx[1] == EffectV::Center);
    } else if i.f5 {
        assert(fx =~= seq![EffectV::Save]);
        assert(fx[0] == EffectV::Save);
    } else if i.key_h {
        assert(fx =~= seq![EffectV::Center]);
        assert(fx[0] == EffectV::Center);
    } else {
        assert(fx =~= Seq::empty());
    }
}

spec fn keyed_c(c: ConsoleV, i: Input, ents: Seq<Ent>, me: u8) -> ConsoleV {
    crate::console::keyed_first(c, i, ents, me).0
}

/// Escape leaves one mode, the innermost: the launch, then the building, then the attack-move; out of all of
/// them it clears the selection. It gives no order.
pub proof fn escape_leaves_one_mode(c: ConsoleV, i: Input, ents: Seq<Ent>, me: u8)
    requires
        plays(c, i),
        no_click(i),
        no_digit(i),
        i.escape,
        !i.f1 && !i.f5 && !i.key_a && !i.key_s && !i.key_x && !i.key_h && !i.key_n,
    ensures
        ({
            let (c1, fx) = handled(c, i, ents, me);
            &&& fx.len() == 0
            &&& c1 == (ConsoleV { nuke_arm: c1.nuke_arm, placing: c1.placing, amove: c1.amove, sel: c1.sel, ..c })
            &&& c1.nuke_arm is None
            &&& c1.placing == (if c.nuke_arm is Some {
                c.placing
            } else {
                None
            })
            &&& c1.amove == (c.amove && (c.nuke_arm is Some || c.placing is Some))
            &&& c1.sel == (if c.nuke_arm is None && c.placing is None && !c.amove {
                Seq::empty()
            } else {
                c.sel
            })
        }),
{
    no_groups(keyed_c(c, i, ents, me), 9, i, ents, me);
    assert(handled(c, i, ents, me).1 =~= Seq::empty());
}

/// S stops the selected units, all of them, if there are any.
pub proof fn the_stop_key_stops(c: ConsoleV, i: Input, ents: Seq<Ent>, me: u8)
    requires
        plays(c, i),
        no_click(i),
        no_digit(i),
        i.key_s,
        !i.f1 && !i.f5 && !i.escape && !i.key_a && !i.key_x && !i.key_h && !i.key_n,
    ensures
        ({
            let (c1, fx) = handled(c, i, ents, me);
            let units = of_sort(ents, c.sel, Sort::Unit);
            &&& c1 == c
            &&& units.len() > 0 ==> fx == seq![EffectV::Order(CommandV::Stop { units })]
            &&& units.len() == 0 ==> fx.len() == 0
        }),
{
    picking(ents, c.sel, Want::Unit, me, Sort::Unit);
    no_groups(keyed_c(c, i, ents, me), 9, i, ents, me);
    let fx = handled(c, i, ents, me).1;
    let units = of_sort(ents, c.sel, Sort::Unit);
    if units.len() > 0 {
        assert(fx =~= seq![EffectV::Order(CommandV::Stop { units })]);
    } else {
        assert(fx =~= Seq::empty());
    }
}

/// Is the handle of a building of ours that is finished?
pub open spec fn sellable(ents: Seq<Ent>, id: Eid, me: u8) -> bool {
    exists|e: Ent| #[trigger] stands_for(ents, id, e) && e.building && e.owner == me && e.done
}

/// The handle but for one.
pub open spec fn but_for(ids: Seq<Eid>, id: Eid) -> Seq<Eid>
    decreases ids.len(),
{
    if ids.len() == 0 {
        Seq::empty()
    } else if ids.last() == id {
        but_for(ids.drop_last(), id)
    } else {
        but_for(ids.drop_last(), id).push(ids.last())
    }
}

proof fn leaving_out(ids: Seq<Eid>, id: Eid)
    ensures
        without(ids, seq![id]) == but_for(ids, id),
    decreases ids.len(),
{
    assert(forall|x: Eid| seq![id].contains(x) <==> x == id) by {
        assert(seq![id][0] == id);
    }
    if ids.len() > 0 {
        leaving_out(ids.drop_last(), id);
    }
}

proof fn the_first(ents: Seq<Ent>, ids: Seq<Eid>, w: Want, me: u8, k: int)
    requires
        0 <= k <= ids.len(),
        k < ids.len() ==> is_such(ents, ids[k], w, me),
        forall|j: int| 0 <= j < k ==> !is_such(ents, #[trigger] ids[j], w, me),
    ensures
        k < ids.len() ==> such(ents, ids, w, me).len() > 0 && such(ents, ids, w, me)[0] == ids[k],
        k == ids.len() ==> such(ents, ids, w, me).len() == 0,
    decreases ids.len(),
{
    if ids.len() > 0 {
        let rest = ids.drop_last();
        assert forall|j: int| 0 <= j < k && j < rest.len() implies !is_such(ents, #[trigger] rest[j], w, me) by {
            assert(rest[j] == ids[j]);
        }
        if k < rest.len() {
            the_first(ents, rest, w, me, k);
        } else {
            the_first(ents, rest, w, me, rest.len() as int);
            if k == ids.len() {
                assert(!is_such(ents, ids[ids.len() - 1], w, me));
            }
        }
    }
}

/// X sells the first selected building of ours that is finished, which leaves the selection; without one it
/// does nothing.
pub proof fn the_sell_key_sells(c: ConsoleV, i: Input, ents: Seq<Ent>, me: u8, k: int)
    requires
        plays(c, i),
        no_click(i),
        no_digit(i),
        i.key_x,
        !i.f1 && !i.f5 && !i.escape && !i.key_a && !i.key_s && !i.key_h && !i.key_n,
        0 <= k <= c.sel.len(),
        k < c.sel.len() ==> sellable(ents, c.sel[k], me),
        forall|j: int| 0 <= j < k ==> !sellable(ents, #[trigger] c.sel[j], me),
    ensures
        ({
            let (c1, fx) = handled(c, i, ents, me);
            &&& k < c.sel.len() ==> fx == seq![EffectV::Order(CommandV::Sell { building: c.sel[k] })] && c1 == (ConsoleV {
                sel: but_for(c.sel, c.sel[k]),
                ..c
            })
            &&& k == c.sel.len() ==> c1 == c && fx.len() == 0
        }),
{
    assert forall|id: Eid| sellable(ents, id, me) <==> is_such(ents, id, Want::Sellable, me) by {
        finding(ents, id);
        if let Some(e) = ent_of(ents, id) {
            assert(stands_for(ents, id, e));
        }
    }
    assert forall|j: int| 0 <= j < k implies !is_such(ents, #[trigger] c.sel[j], Want::Sellable, me) by {
        assert(!sellable(ents, c.sel[j], me));
    }
    the_first(ents, c.sel, Want::Sellable, me, k);
    let (c1, fx) = handled(c, i, ents, me);
    if k < c.sel.len() {
        leaving_out(c.sel, c.sel[k]);
        no_groups(ConsoleV { sel: but_for(c.sel, c.sel[k]), ..c }, 9, i, ents, me);
        assert(fx =~= seq![EffectV::Order(CommandV::Sell { building: c.sel[k] })]);
    } else {
        no_groups(c, 9, i, ents, me);
        assert(fx =~= Seq::empty());
    }
}

/// Is the handle of a silo of ours that is ready to fire?
pub open spec fn ready_silo(ents: Seq<Ent>, id: Eid, me: u8) -> bool {
    exists|e: Ent| #[trigger] stands_for(ents, id, e) && e.silo && e.owner == me && e.done && e.charged
}

/// N arms the first selected silo that is ready, and tells the player to pick a target; where a silo is
/// selected but none is ready, it says that it still charges. It fires nothing.
pub proof fn the_launch_key_arms(c: ConsoleV, i: Input, ents: Seq<Ent>, me: u8, k: int)
    requires
        plays(c, i),
        no_click(i),
        no_digit(i),
        i.key_n,
        !i.left_ctrl || !i.left_shift,
        !i.f1 && !i.f5 && !i.escape && !i.key_a && !i.key_s && !i.key_x && !i.key_h,
        0 <= k <= c.sel.len(),
        k < c.sel.len() ==> ready_silo(ents, c.sel[k], me),
        forall|j: int| 0 <= j < k ==> !ready_silo(ents, #[trigger] c.sel[j], me),
    ensures
        ({
            let (c1, fx) = handled(c, i, ents, me);
            let some = exists|j: int, e: Ent| 0 <= j < c.sel.len() && #[trigger] stands_for(ents, c.sel[j], e) && e.silo;
            &&& k < c.sel.len() ==> fx == seq![EffectV::Say(Notice::PickTarget)] && c1 == (ConsoleV {
                nuke_arm: Some(c.sel[k]),
                ..c
            })
            &&& k == c.sel.len() && some ==> fx == seq![EffectV::Say(Notice::StillCharging)] && c1 == c
            &&& k == c.sel.len() && !some ==> fx.len() == 0 && c1 == c
        }),
{
    assert forall|id: Eid| ready_silo(ents, id, me) <==> is_such(ents, id, Want::ReadySilo, me) by {
        finding(ents, id);
        if let Some(e) = ent_of(ents, id) {
            assert(stands_for(ents, id, e));
        }
    }
    assert forall|j: int| 0 <= j < k implies !is_such(ents, #[trigger] c.sel[j], Want::ReadySilo, me) by {
        assert(!ready_silo(ents, c.sel[j], me));
    }
    the_first(ents, c.sel, Want::ReadySilo, me, k);
    let (c1, fx) = handled(c, i, ents, me);
    if k < c.sel.len() {
        no_groups(ConsoleV { nuke_arm: Some(c.sel[k]), ..c }, 9, i, ents, me);
        assert(fx =~= seq![EffectV::Say(Notice::PickTarget)]);
    } else {
        no_groups(c, 9, i, ents, me);
        let some = exists|j: int, e: Ent| 0 <= j < c.sel.len() && #[trigger] stands_for(ents, c.sel[j], e) && e.silo;
        let silos = such(ents, c.sel, Want::Silo, me);
        if silos.len() > 0 {
            let id = silos[0];
            assert(silos.contains(id));
            such_members(ents, c.sel, Want::Silo, me, id);
            let j = choose|j: int| 0 <= j < c.sel.len() && c.sel[j] == id;
            finding(ents, id);
            assert(stands_for(ents, c.sel[j], ent_of(ents, id)->0));
            assert(fx =~= seq![EffectV::Say(Notice::StillCharging)]);
        } else {
            if some {
                let (j, e) = choose|j: int, e: Ent|
                    0 <= j < c.sel.len() && #[trigger] stands_for(ents, c.sel[j], e) && e.silo;
                finding(ents, c.sel[j]);
                assert(c.sel.contains(c.sel[j]));
                such_members(ents, c.sel, Want::Silo, me, c.sel[j]);
            }
            assert(fx =~= Seq::empty());
        }
    }
}

/// After the check the selection is what of it still lives and is ours, in its order; a launch stays armed
/// only on a silo of ours that is charged. Nothing else changes.
pub proof fn the_lost_leave_the_selection(c: ConsoleV, ents: Seq<Ent>, me: u8)
    ensures
        ({
            let c1 = validated(c, ents, me);
            &&& c1.sel == of_sort(ents, c.sel, Sort::Living(me))
            &&& c1.nuke_arm is Some <==> c.nuke_arm is Some && exists|e: Ent| #[trigger]
                stands_for(ents, c.nuke_arm->0, e) && e.owner == me && e.silo && e.charged
            &&& c1.nuke_arm is Some ==> c1.nuke_arm == c.nuke_arm
            &&& c1 == (ConsoleV { sel: c1.sel, nuke_arm: c1.nuke_arm, ..c })
        }),
{
    picking(ents, c.sel, Want::Living, me, Sort::Living(me));
    if let Some(id) = c.nuke_arm {
        finding(ents, id);
        if let Some(e) = ent_of(ents, id) {
            assert(stands_for(ents, id, e));
        }
    }
}

proof fn one_group(c: ConsoleV, m: nat, n: int, i: Input, ents: Seq<Ent>, me: u8)
    requires
        1 <= n <= 9,
        m <= 9,
        forall|k: int| 0 <= k < 9 ==> #[trigger] i.digits@[k] == (k == n - 1),
    ensures
        grouped_all(c, m, i, ents, me) == (if m < n {
            c
        } else {
            crate::console::grouped(c, n, i.left_ctrl || i.right_ctrl, ents, me)
        }),
    decreases m,
{
    if m > 0 {
        one_group(c, (m - 1) as nat, n, i, ents, me);
        assert(i.digits@[m - 1] == (m - 1 == n - 1));
    }
}

/// A number key with Ctrl stores the selection under its number and changes nothing else; without Ctrl it
/// makes what is stored there and still lives the selection, and where nothing is stored it does nothing.
pub proof fn number_keys_store_and_recall(c: ConsoleV, i: Input, ents: Seq<Ent>, me: u8, n: int)
    requires
        plays(c, i),
        no_click(i),
        1 <= n <= 9,
        c.groups.len() == 10,
        forall|k: int| 0 <= k < 9 ==> #[trigger] i.digits@[k] == (k == n - 1),
        !i.f1 && !i.f5 && !i.escape && !i.key_a && !i.key_s && !i.key_x && !i.key_h && !i.key_n,
    ensures
        ({
            let (c1, fx) = handled(c, i, ents, me);
            let ctrl = i.left_ctrl || i.right_ctrl;
            &&& fx.len() == 0
            &&& ctrl ==> c1.groups.len() == 10 && c1.groups[n] == c.sel && (forall|k: int|
                0 <= k < 10 && k != n ==> #[trigger] c1.groups[k] == c.groups[k]) && c1 == (ConsoleV { groups: c1.groups, ..c })
            &&& !ctrl && c.groups[n].len() > 0 ==> c1.sel == of_sort(ents, c.groups[n], Sort::Living(me)) && c1 == (ConsoleV {
                sel: c1.sel,
                nuke_arm: c1.nuke_arm,
                ..c
            })
            &&& !ctrl && c.groups[n].len() == 0 ==> c1 == c
        }),
{
    one_group(c, 9, n, i, ents, me);
    the_lost_leave_the_selection(ConsoleV { sel: c.groups[n], ..c }, ents, me);
    assert(handled(c, i, ents, me).1 =~= Seq::empty());
}

// ----------------------------------------------------------------------
// Left clicks
// ----------------------------------------------------------------------

/// Nothing but the left button going down.
pub open spec fn only_left(c: ConsoleV, i: Input) -> bool {
    plays(c, i) && no_key(i) && i.release is None && !i.right
}

/// A click on the minimap moves the camera there; one on a tab opens it; one on a building of the sidebar
/// begins to place it, or stops if it was being placed.
pub proof fn the_sidebar_obeys(c: ConsoleV, i: Input, ents: Seq<Ent>, me: u8)
    requires
        only_left(c, i),
    ensures
        ({
            let (c1, fx) = handled(c, i, ents, me);
            &&& i.left is Minimap ==> c1 == c && fx == seq![EffectV::Jump]
            &&& i.left matches Left::Sidebar(side) ==> {
                &&& side is Nothing ==> c1 == c && fx.len() == 0
                &&& side matches Side::Tab { units } ==> c1 == (ConsoleV { units_tab: units, ..c }) && fx.len() == 0
                &&& side matches Side::Place { kind } ==> fx.len() == 0 && c1 == (ConsoleV { placing: c1.placing, ..c }) && (
                c1.placing is None <==> c.placing == Some(kind)) && (c1.placing is Some ==> c1.placing == Some(kind))
                &&& side matches Side::Train { kind, producer } ==> c1 == c && (producer is None ==> fx.len() == 0)
            }
        }),
{
    keys_rest(c, i, ents, me);
    let fx = handled(c, i, ents, me).1;
    if i.left is Minimap {
        assert(fx =~= seq![EffectV::Jump]);
    }
}

/// Can the entity train: is it a finished building of ours of the kind?
pub open spec fn can_train(e: Ent, me: u8, kind: u8) -> bool {
    e.owner == me && e.kind == kind && e.done
}

pub open spec fn trainer(ents: Seq<Ent>, id: Eid, me: u8, kind: u8) -> bool {
    exists|e: Ent| #[trigger] stands_for(ents, id, e) && can_train(e, me, kind)
}

proof fn first_selected_trainer(ents: Seq<Ent>, sel: Seq<Eid>, me: u8, kind: u8, k: int)
    requires
        0 <= k <= sel.len(),
        k < sel.len() ==> trainer(ents, sel[k], me, kind),
        forall|j: int| 0 <= j < k ==> !trainer(ents, #[trigger] sel[j], me, kind),
    ensures
        first_trainer(ents, sel, me, kind) == (if k < sel.len() {
            Some(sel[k])
        } else {
            None
        }),
    decreases sel.len(),
{
    if sel.len() > 0 {
        finding(ents, sel[0]);
        if let Some(e) = ent_of(ents, sel[0]) {
            assert(stands_for(ents, sel[0], e));
            assert(can_train(e, me, kind) == trains(e, me, kind));
        }
        if k > 0 {
            assert(!trainer(ents, sel[0], me, kind));
            let rest = sel.drop_first();
            assert forall|j: int| 0 <= j < k - 1 implies !trainer(ents, #[trigger] rest[j], me, kind) by {
                assert(rest[j] == sel[j + 1]);
            }
            first_selected_trainer(ents, rest, me, kind, k - 1);
        }
    }
}

proof fn first_trainer_of_ours(ents: Seq<Ent>, me: u8, kind: u8, k: int)
    requires
        0 <= k <= ents.len(),
        k < ents.len() ==> can_train(ents[k], me, kind),
        forall|j: int| 0 <= j < k ==> !can_train(#[trigger] ents[j], me, kind),
    ensures
        first_own(ents, me, kind) == (if k < ents.len() {
            Some(ents[k].id)
        } else {
            None
        }),
    decreases ents.len(),
{
    if ents.len() > 0 {
        assert(can_train(ents[0], me, kind) == trains(ents[0], me, kind));
        if k > 0 {
            let rest = ents.drop_first();
            assert forall|j: int| 0 <= j < k - 1 implies !can_train(#[trigger] rest[j], me, kind) by {
                assert(rest[j] == ents[j + 1]);
            }
            first_trainer_of_ours(rest, me, kind, k - 1);
        }
    }
}

/// A click on a unit of the sidebar trains it at the first selected building that can, or else at the first
/// of ours that can; without one nothing is ordered.
pub proof fn units_are_trained(c: ConsoleV, i: Input, ents: Seq<Ent>, me: u8, kind: u8, by: u8, k: int, n: int)
    requires
        only_left(c, i),
        i.left == Left::Sidebar(Side::Train { kind, producer: Some(by) }),
        0 <= k <= c.sel.len(),
        k < c.sel.len() ==> trainer(ents, c.sel[k], me, by),
        forall|j: int| 0 <= j < k ==> !trainer(ents, #[trigger] c.sel[j], me, by),
        0 <= n <= ents.len(),
        n < ents.len() ==> can_train(ents[n], me, by),
        forall|j: int| 0 <= j < n ==> !can_train(#[trigger] ents[j], me, by),
    ensures
        ({
            let (c1, fx) = handled(c, i, ents, me);
            &&& c1 == c
            &&& k < c.sel.len() ==> fx == seq![EffectV::Order(CommandV::Train { building: c.sel[k], kind })]
            &&& k == c.sel.len() && n < ents.len() ==> fx == seq![
                EffectV::Order(CommandV::Train { building: ents[n].id, kind }),
            ]
            &&& k == c.sel.len() && n == ents.len() ==> fx.len() == 0
        }),
{
    keys_rest(c, i, ents, me);
    first_selected_trainer(ents, c.sel, me, by, k);
    first_trainer_of_ours(ents, me, by, n);
    let fx = handled(c, i, ents, me).1;
    if k < c.sel.len() {
        assert(fx =~= seq![EffectV::Order(CommandV::Train { building: c.sel[k], kind })]);
    } else if n < ents.len() {
        assert(fx =~= seq![EffectV::Order(CommandV::Train { building: ents[n].id, kind })]);
    } else {
        assert(fx =~= Seq::empty());
    }
}

/// A click on the field does what the innermost mode says. An armed silo fires there, if the tile is on the
/// map; a building is placed there, if it can stand, and with Shift the next one is placed after it; the
/// selected units attack-move there. Out of all modes a selection begins.
pub proof fn field_clicks_obey_the_mode(c: ConsoleV, i: Input, ents: Seq<Ent>, me: u8)
    requires
        only_left(c, i),
        i.left is Field,
    ensures
        ({
            let (c1, fx) = handled(c, i, ents, me);
            let t = i.spot.tile;
            let units = of_sort(ents, c.sel, Sort::Unit);
            &&& c.nuke_arm matches Some(silo) ==> {
                &&& i.spot.in_bounds ==> c1 == (ConsoleV { nuke_arm: None, ..c }) && fx == seq![
                    EffectV::Order(CommandV::FireNuke { silo, at: t }),
                    EffectV::Mark(t, Hue::Nuke),
                ]
                &&& !i.spot.in_bounds ==> c1 == c && fx.len() == 0
            }
            &&& c.nuke_arm is None ==> (c.placing matches Some(kind) ==> {
                &&& i.spot.can_place ==> fx == seq![EffectV::Order(CommandV::Build { kind, at: t })]
                &&& i.spot.can_place && i.left_shift ==> c1 == c
                &&& i.spot.can_place && !i.left_shift ==> c1 == (ConsoleV { placing: None, ..c })
                &&& !i.spot.can_place ==> c1 == c && fx.len() == 0
            })
            &&& c.nuke_arm is None && c.placing is None && c.amove ==> c1 == (ConsoleV { amove: false, ..c }) && (units.len() > 0
                ==> fx == seq![
                EffectV::Order(CommandV::AttackMove { units, to: t }),
                EffectV::Mark(t, Hue::Advance),
            ]) && (units.len() == 0 ==> fx.len() == 0)
            &&& c.nuke_arm is None && c.placing is None && !c.amove ==> c1 == (ConsoleV { dragging: true, ..c }) && fx.len()
                == 0
        }),
{
    keys_rest(c, i, ents, me);
    picking(ents, c.sel, Want::Unit, me, Sort::Unit);
    let fx = handled(c, i, ents, me).1;
    let t = i.spot.tile;
    if let Some(silo) = c.nuke_arm {
        if i.spot.in_bounds {
            assert(fx =~= seq![EffectV::Order(CommandV::FireNuke { silo, at: t }), EffectV::Mark(t, Hue::Nuke)]);
        }
    } else if let Some(kind) = c.placing {
        if i.spot.can_place {
            assert(fx =~= seq![EffectV::Order(CommandV::Build { kind, at: t })]);
        }
    } else if c.amove {
        let units = of_sort(ents, c.sel, Sort::Unit);
        if units.len() > 0 {
            assert(fx =~= seq![EffectV::Order(CommandV::AttackMove { units, to: t }), EffectV::Mark(t, Hue::Advance)]);
        }
    }
}

// ----------------------------------------------------------------------
// Selecting
// ----------------------------------------------------------------------

/// Nothing but the left button going up.
pub open spec fn only_release(c: ConsoleV, i: Input) -> bool {
    plays(c, i) && no_key(i) && i.left is Nowhere && !i.right
}

/// Where no drag began, letting go does nothing.
pub proof fn only_drags_select(c: ConsoleV, i: Input, ents: Seq<Ent>, me: u8)
    requires
        only_release(c, i),
        !c.dragging,
    ensures
        handled(c, i, ents, me).0 == c,
        handled(c, i, ents, me).1.len() == 0,
{
    keys_rest(c, i, ents, me);
    assert(handled(c, i, ents, me).1 =~= Seq::empty());
}

/// A click on something of ours selects it alone. With Shift it joins the selection, or leaves it if it was
/// in. A click on anything else clears the selection, and with Shift leaves it as it is.
pub proof fn clicks_select(c: ConsoleV, i: Input, ents: Seq<Ent>, me: u8)
    requires
        only_release(c, i),
        c.dragging,
        i.release is Some,
        i.release->0.click,
    ensures
        ({
            let (c1, fx) = handled(c, i, ents, me);
            let shift = i.left_shift || i.right_shift;
            let hit = i.release->0.hit;
            let ours = hit is Some && exists|e: Ent| #[trigger] stands_for(ents, hit->0, e) && e.owner == me;
            &&& c1 == (ConsoleV { dragging: false, sel: c1.sel, ..c })
            &&& ours && !shift ==> c1.sel == seq![hit->0] && fx == seq![EffectV::Blip]
            &&& ours && shift && !c.sel.contains(hit->0) ==> c1.sel == c.sel.push(hit->0) && fx == seq![EffectV::Blip]
            &&& ours && shift && c.sel.contains(hit->0) ==> c1.sel == but_for(c.sel, hit->0) && fx.len() == 0
            &&& !ours && !shift ==> c1.sel.len() == 0 && fx.len() == 0
            &&& !ours && shift ==> c1.sel == c.sel && fx.len() == 0
        }),
{
    keys_rest(c, i, ents, me);
    let shift = i.left_shift || i.right_shift;
    let r = i.release->0;
    let (c1, fx) = handled(c, i, ents, me);
    if let Some(id) = r.hit {
        finding(ents, id);
        if let Some(e) = ent_of(ents, id) {
            assert(stands_for(ents, id, e));
        }
        leaving_out(c.sel, id);
        shorter(c.sel, id);
        assert(Seq::<Eid>::empty().push(id) =~= seq![id]);
    }
    assert(fx =~= crate::console::on(c1.sel.len() > if shift {
        c.sel.len()
    } else {
        0
    }, EffectV::Blip));
}

proof fn shorter(ids: Seq<Eid>, id: Eid)
    ensures
        but_for(ids, id).len() <= ids.len(),
    decreases ids.len(),
{
    if ids.len() > 0 {
        shorter(ids.drop_last(), id);
    }
}

/// A box selects our units in it, each once; with Shift they join the selection, behind what was there.
pub proof fn boxes_select(c: ConsoleV, i: Input, ents: Seq<Ent>, me: u8)
    requires
        only_release(c, i),
        c.dragging,
        i.release is Some,
        !i.release->0.click,
    ensures
        ({
            let (c1, fx) = handled(c, i, ents, me);
            let shift = i.left_shift || i.right_shift;
            let picks = i.release->0.picks@;
            let before = if shift {
                c.sel
            } else {
                Seq::empty()
            };
            &&& c1 == (ConsoleV { dragging: false, sel: c1.sel, ..c })
            &&& before.len() <= c1.sel.len() && c1.sel.take(before.len() as int) == before
            &&& forall|id: Eid| #[trigger] c1.sel.contains(id) <==> before.contains(id) || picks.contains(id)
            &&& before.no_duplicates() ==> c1.sel.no_duplicates()
            &&& picks.no_duplicates() && !shift ==> c1.sel == picks
            &&& c1.sel.len() > before.len() ==> fx == seq![EffectV::Blip]
            &&& c1.sel.len() == before.len() ==> fx.len() == 0
        }),
{
    keys_rest(c, i, ents, me);
    let shift = i.left_shift || i.right_shift;
    let picks = i.release->0.picks@;
    let before = if shift {
        c.sel
    } else {
        Seq::empty()
    };
    joining(before, picks);
    if picks.no_duplicates() && !shift {
        joining_none(picks);
    }
    if before.no_duplicates() {
        crate::console::boxes_select_once(before, picks);
    }
    let (c1, fx) = handled(c, i, ents, me);
    assert(fx =~= crate::console::on(c1.sel.len() > before.len(), EffectV::Blip));
}

proof fn joining(sel: Seq<Eid>, more: Seq<Eid>)
    ensures
        sel.len() <= joined_by(sel, more).len(),
        joined_by(sel, more).take(sel.len() as int) == sel,
        forall|id: Eid| #[trigger] joined_by(sel, more).contains(id) <==> sel.contains(id) || more.contains(id),
    decreases more.len(),
{
    let all = joined_by(sel, more);
    if more.len() > 0 {
        let rest = more.drop_last();
        joining(sel, rest);
        let head = joined_by(sel, rest);
        assert(all.take(sel.len() as int) =~= head.take(sel.len() as int));
        assert forall|id: Eid| #[trigger] all.contains(id) <==> sel.contains(id) || more.contains(id) by {
            assert(head.contains(id) <==> sel.contains(id) || rest.contains(id));
            if all.contains(id) {
                let k = choose|k: int| 0 <= k < all.len() && all[k] == id;
                if k < head.len() {
                    assert(head[k] == id);
                    if rest.contains(id) {
                        let j = choose|j: int| 0 <= j < rest.len() && rest[j] == id;
                        assert(more[j] == id);
                    }
                } else {
                    assert(more[more.len() - 1] == id);
                }
            }
            if head.contains(id) {
                let k = choose|k: int| 0 <= k < head.len() && head[k] == id;
                assert(all[k] == id);
            }
            if more.contains(id) {
                let j = choose|j: int| 0 <= j < more.len() && more[j] == id;
                if j < rest.len() {
                    assert(rest[j] == id);
                } else if !head.contains(id) {
                    assert(all[all.len() - 1] == id);
                }
            }
        }
    } else {
        assert(all.take(sel.len() as int) =~= sel);
    }
}

proof fn joining_none(more: Seq<Eid>)
    requires
        more.no_duplicates(),
    ensures
        joined_by(Seq::empty(), more) == more,
    decreases more.len(),
{
    if more.len() > 0 {
        let rest = more.drop_last();
        joining_none(rest);
        assert(!rest.contains(more.last())) by {
            if rest.contains(more.last()) {
                let j = choose|j: int| 0 <= j < rest.len() && rest[j] == more.last();
                assert(more[j] == more[more.len() - 1]);
            }
        }
        assert(rest.push(more.last()) =~= more);
    } else {
        assert(more =~= Seq::empty());
    }
}

// ----------------------------------------------------------------------
// The right button, the map and the chat line
// ----------------------------------------------------------------------

/// The right button leaves the innermost mode without an order; out of all modes it orders what the place
/// under the mouse calls for, if that is on the field.
pub proof fn right_clicks_cancel_or_order(c: ConsoleV, i: Input, ents: Seq<Ent>, me: u8)
    requires
        plays(c, i),
        no_key(i),
        i.left is Nowhere,
        i.release is None,
        i.right,
    ensures
        ({
            let (c1, fx) = handled(c, i, ents, me);
            let mode = c.nuke_arm is Some || c.placing is Some || c.amove;
            &&& c1 == (ConsoleV { nuke_arm: c1.nuke_arm, placing: c1.placing, amove: c1.amove, ..c })
            &&& c1.nuke_arm is None
            &&& c1.placing == (if c.nuke_arm is Some {
                c.placing
            } else {
                None
            })
            &&& c1.amove == (c.amove && (c.nuke_arm is Some || c.placing is Some))
            &&& mode || !i.in_view ==> fx.len() == 0
            &&& !mode && i.in_view ==> fx == context_order(ents, c.sel, me, i.spot)
        }),
{
    keys_rest(c, i, ents, me);
    let fx = handled(c, i, ents, me).1;
    if c.nuke_arm is None && c.placing is None && !c.amove && i.in_view {
        assert(fx =~= context_order(ents, c.sel, me, i.spot));
    } else {
        assert(fx =~= Seq::empty());
    }
}

/// While the world map is open a click on a region travels there, and nothing else does anything. Enter
/// begins an empty line of chat.
pub proof fn maps_and_lines_come_first(c: ConsoleV, i: Input, ents: Seq<Ent>, me: u8)
    ensures
        ({
            let (c1, fx) = handled(c, i, ents, me);
            &&& c.show_map ==> c1 == c
            &&& c.show_map && i.region is None ==> fx.len() == 0
            &&& c.show_map && i.region is Some ==> fx == seq![EffectV::Travel(i.region->0)]
            &&& !c.show_map && c.chat is None && i.enter ==> c1 == (ConsoleV { chat: Some(Seq::empty()), ..c }) && fx.len() == 0
        }),
{
}

/// Is the character taken into a line: is it none of the control characters, and is there room?
pub open spec fn fits_line(line: Seq<char>, ch: char) -> bool {
    &&& !(ch as u32 <= 0x1f || 0x7f <= ch as u32 <= 0x9f)
    &&& encode_utf8(line).len() < 110
}

/// A line of chat takes what is typed, one character after the other, as long as there is room; Backspace
/// takes the last one back. Enter says the line and Escape drops it: both end it.
pub proof fn lines_take_what_is_typed(c: ConsoleV, i: Input, ents: Seq<Ent>, me: u8, line: Seq<char>)
    requires
        !c.show_map,
        c.chat == Some(line),
    ensures
        ({
            let (c1, fx) = handled(c, i, ents, me);
            &&& c1 == (ConsoleV { chat: c1.chat, ..c })
            &&& i.enter || i.escape ==> c1.chat is None
            &&& !i.enter ==> fx.len() == 0
            &&& !i.enter && !i.escape && i.typed@.len() == 0 && !i.backspace ==> c1.chat == Some(line)
            &&& !i.enter && !i.escape && i.typed@.len() == 0 && i.backspace && line.len() > 0 ==> c1.chat == Some(line.drop_last())
            &&& !i.enter && !i.escape && i.typed@.len() == 0 && i.backspace && line.len() == 0 ==> c1.chat == Some(line)
            &&& !i.enter && !i.escape && i.typed@.len() == 1 && !i.backspace && fits_line(line, i.typed@[0]) ==> c1.chat == Some(
                line.push(i.typed@[0]),
            )
            &&& !i.enter && !i.escape && i.typed@.len() == 1 && !i.backspace && !fits_line(line, i.typed@[0]) ==> c1.chat == Some(
                line,
            )
        }),
{
    if i.typed@.len() == 1 {
        assert(i.typed@.drop_last() =~= Seq::empty());
        assert(crate::console::typed_all(line, i.typed@.drop_last()) == line);
    }
}

// ----------------------------------------------------------------------
// Several things in one frame
// ----------------------------------------------------------------------

/// The same hotkeys, with the same keys held.
pub open spec fn same_keys(i: Input, j: Input) -> bool {
    &&& i.f1 == j.f1 && i.f5 == j.f5 && i.escape == j.escape && i.enter == j.enter
    &&& i.key_a == j.key_a && i.key_s == j.key_s && i.key_x == j.key_x && i.key_h == j.key_h && i.key_n == j.key_n
    &&& same_digits(i, j) && same_held(i, j)
}

pub open spec fn same_digits(i: Input, j: Input) -> bool {
    forall|k: int| 0 <= k < 9 ==> #[trigger] i.digits@[k] == j.digits@[k]
}

pub open spec fn same_held(i: Input, j: Input) -> bool {
    i.left_ctrl == j.left_ctrl && i.right_ctrl == j.right_ctrl && i.left_shift == j.left_shift && i.right_shift
        == j.right_shift
}

proof fn groups_agree(c: ConsoleV, n: nat, i: Input, j: Input, ents: Seq<Ent>, me: u8)
    requires
        n <= 9,
        same_digits(i, j),
        same_held(i, j),
    ensures
        grouped_all(c, n, i, ents, me) == grouped_all(c, n, j, ents, me),
    decreases n,
{
    if n > 0 {
        groups_agree(c, (n - 1) as nat, i, j, ents, me);
        assert(i.digits@[n - 1] == j.digits@[n - 1]);
    }
}

proof fn groups_keep(c: ConsoleV, n: nat, i: Input, ents: Seq<Ent>, me: u8)
    ensures
        ({
            let c1 = grouped_all(c, n, i, ents, me);
            c1.show_map == c.show_map && c1.chat == c.chat
        }),
    decreases n,
{
    if n > 0 {
        groups_keep(c, (n - 1) as nat, i, ents, me);
    }
}

/// What happens in one frame happens in its order: the hotkeys first, then the left button going down, then it going
/// up, then the right button, each on what the one before it left.
pub proof fn a_frame_has_its_order(
    c: ConsoleV,
    i: Input,
    keys: Input,
    down: Input,
    up: Input,
    right: Input,
    ents: Seq<Ent>,
    me: u8,
)
    requires
        plays(c, i),
        same_keys(i, keys) && no_click(keys),
        no_key(down) && !down.enter && down.left == i.left && same_held(i, down) && down.spot == i.spot && down.release is None
            && !down.right,
        no_key(up) && !up.enter && up.left is Nowhere && up.release == i.release && same_held(i, up) && !up.right,
        no_key(right) && !right.enter && right.left is Nowhere && right.release is None && right.right == i.right && right.in_view
            == i.in_view && right.spot == i.spot,
    ensures
        ({
            let a = handled(c, keys, ents, me);
            let b = handled(a.0, down, ents, me);
            let d = handled(b.0, up, ents, me);
            let e = handled(d.0, right, ents, me);
            handled(c, i, ents, me) == (e.0, a.1 + b.1 + d.1 + e.1)
        }),
{
    keyed_agrees(c, i, keys, ents, me);
    keyed_keeps(c, i, ents, me);
    keys_only(c, keys, ents, me);
    let a = handled(c, keys, ents, me);
    down_only(a.0, down, ents, me);
    lefted_keeps(a.0, i, ents, me);
    assert(crate::console::lefted(a.0, down, ents, me) == crate::console::lefted(a.0, i, ents, me));
    let b = handled(a.0, down, ents, me);
    up_only(b.0, up, ents, me);
    assert(crate::console::released(b.0, up, ents, me) == crate::console::released(b.0, i, ents, me));
    let d = handled(b.0, up, ents, me);
    right_only(d.0, right, ents, me);
    assert(crate::console::righted(d.0, right, ents, me) == crate::console::righted(d.0, i, ents, me));
}

proof fn keys_only(c: ConsoleV, k: Input, ents: Seq<Ent>, me: u8)
    requires
        plays(c, k),
        no_click(k),
    ensures
        handled(c, k, ents, me) == keyed(c, k, ents, me),
{
    let x = keyed(c, k, ents, me);
    let none = Seq::<EffectV>::empty();
    assert(x.1 + none + none + none =~= x.1);
}

proof fn down_only(c: ConsoleV, d: Input, ents: Seq<Ent>, me: u8)
    requires
        plays(c, d),
        no_key(d),
        d.release is None,
        !d.right,
    ensures
        handled(c, d, ents, me) == crate::console::lefted(c, d, ents, me),
{
    keys_rest(c, d, ents, me);
    let x = crate::console::lefted(c, d, ents, me);
    let none = Seq::<EffectV>::empty();
    assert(none + x.1 + none + none =~= x.1);
}

proof fn up_only(c: ConsoleV, u: Input, ents: Seq<Ent>, me: u8)
    requires
        plays(c, u),
        no_key(u),
        u.left is Nowhere,
        !u.right,
    ensures
        handled(c, u, ents, me) == crate::console::released(c, u, ents, me),
        handled(c, u, ents, me).0.show_map == c.show_map,
        handled(c, u, ents, me).0.chat == c.chat,
{
    keys_rest(c, u, ents, me);
    let x = crate::console::released(c, u, ents, me);
    let none = Seq::<EffectV>::empty();
    assert(none + none + x.1 + none =~= x.1);
}

proof fn right_only(c: ConsoleV, r: Input, ents: Seq<Ent>, me: u8)
    requires
        plays(c, r),
        no_key(r),
        r.left is Nowhere,
        r.release is None,
    ensures
        handled(c, r, ents, me) == crate::console::righted(c, r, ents, me),
{
    keys_rest(c, r, ents, me);
    let x = crate::console::righted(c, r, ents, me);
    let none = Seq::<EffectV>::empty();
    assert(none + none + none + x.1 =~= x.1);
}

proof fn lefted_keeps(c: ConsoleV, i: Input, ents: Seq<Ent>, me: u8)
    ensures
        crate::console::lefted(c, i, ents, me).0.show_map == c.show_map,
        crate::console::lefted(c, i, ents, me).0.chat == c.chat,
{
}

proof fn keyed_agrees(c: ConsoleV, i: Input, j: Input, ents: Seq<Ent>, me: u8)
    requires
        same_keys(i, j),
    ensures
        keyed(c, i, ents, me) == keyed(c, j, ents, me),
{
    let c1 = crate::console::keyed_first(c, i, ents, me).0;
    assert(crate::console::keyed_first(c, i, ents, me) == crate::console::keyed_first(c, j, ents, me));
    groups_agree(after_letters(c1, i, ents, me), 9, i, j, ents, me);
}

proof fn keyed_keeps(c: ConsoleV, i: Input, ents: Seq<Ent>, me: u8)
    ensures
        keyed(c, i, ents, me).0.show_map == c.show_map,
        keyed(c, i, ents, me).0.chat == c.chat,
{
    let c1 = crate::console::keyed_first(c, i, ents, me).0;
    groups_keep(after_letters(c1, i, ents, me), 9, i, ents, me);
}

/// The console after X and N.
spec fn after_letters(c: ConsoleV, i: Input, ents: Seq<Ent>, me: u8) -> ConsoleV {
    let x = if i.key_x {
        crate::console::sold(c, ents, me).0
    } else {
        c
    };
    if i.key_n {
        crate::console::armed(x, ents, me).0
    } else {
        x
    }
}

/// Hotkeys of one frame act in turn: F1, F5, Escape, A and S, then X, then N, then the number keys, each on what the
/// one before it left.
pub proof fn hotkeys_act_in_turn(c: ConsoleV, i: Input, first: Input, sell: Input, arm: Input, digits: Input, ents: Seq<Ent>, me: u8)
    requires
        plays(c, i),
        no_click(i) && no_click(first) && no_click(sell) && no_click(arm) && no_click(digits),
        !first.enter && !sell.enter && !arm.enter && !digits.enter,
        first.f1 == i.f1 && first.f5 == i.f5 && first.escape == i.escape && first.key_a == i.key_a && first.key_s == i.key_s,
        !first.key_x && !first.key_h && !first.key_n && no_digit(first),
        sell.key_x == i.key_x && sell.key_h == i.key_h && !sell.f1 && !sell.f5 && !sell.escape && !sell.key_a && !sell.key_s
            && !sell.key_n && no_digit(sell),
        arm.key_n == i.key_n && !arm.left_ctrl && !arm.f1 && !arm.f5 && !arm.escape && !arm.key_a && !arm.key_s && !arm.key_x
            && !arm.key_h && no_digit(arm),
        same_digits(i, digits) && same_held(i, digits) && !digits.f1 && !digits.f5 && !digits.escape && !digits.key_a
            && !digits.key_s && !digits.key_x && !digits.key_h && !digits.key_n,
    ensures
        ({
            let a = handled(c, first, ents, me);
            let b = handled(a.0, sell, ents, me);
            let d = handled(b.0, arm, ents, me);
            let e = handled(d.0, digits, ents, me);
            &&& handled(c, i, ents, me).0 == e.0
            &&& !(i.key_n && i.left_ctrl && i.left_shift) ==> handled(c, i, ents, me).1 == a.1 + b.1 + d.1
            &&& i.key_n && i.left_ctrl && i.left_shift ==> handled(c, i, ents, me).1.contains(EffectV::Descend)
        }),
{
    let c1 = crate::console::keyed_first(c, i, ents, me).0;
    keys_only(c, i, ents, me);
    keys_only(c, first, ents, me);
    first_part(c, i, first, ents, me);
    keys_only(c1, sell, ents, me);
    sell_part(c1, i, sell, ents, me);
    let x = handled(c1, sell, ents, me);
    keys_only(x.0, arm, ents, me);
    arm_part(x.0, i, arm, ents, me);
    let n = handled(x.0, arm, ents, me);
    keys_only(n.0, digits, ents, me);
    digits_part(n.0, i, digits, ents, me);
    let k1 = crate::console::keyed_first(c, i, ents, me).1;
    keyed_whole(c, i, ents, me);
    in_a_row(k1, x.1, n.1);
    if i.key_n && i.left_ctrl && i.left_shift {
        descends(c, i, ents, me, x.1 + n.1);
    }
}

proof fn in_a_row(a: Seq<EffectV>, b: Seq<EffectV>, c: Seq<EffectV>)
    ensures
        a + (b + c) == a + b + c,
{
    assert(a + (b + c) =~= a + b + c);
}

proof fn descends(c: ConsoleV, i: Input, ents: Seq<Ent>, me: u8, rest: Seq<EffectV>)
    requires
        i.key_n && i.left_ctrl && i.left_shift,
    ensures
        (crate::console::keyed_first(c, i, ents, me).1 + rest).contains(EffectV::Descend),
{
    let k1 = crate::console::keyed_first(c, i, ents, me).1;
    let k: int = if i.f5 {
        1
    } else {
        0
    };
    assert(k1[k] == EffectV::Descend);
    assert((k1 + rest)[k] == EffectV::Descend);
}

proof fn keyed_whole(c: ConsoleV, i: Input, ents: Seq<Ent>, me: u8)
    ensures
        ({
            let (c1, k1) = crate::console::keyed_first(c, i, ents, me);
            let (x, sx) = if i.key_x {
                crate::console::sold(c1, ents, me)
            } else {
                (c1, Seq::empty())
            };
            let (n, nx) = if i.key_n {
                crate::console::armed(x, ents, me)
            } else {
                (x, Seq::empty())
            };
            let h = crate::console::on(i.key_h, EffectV::Center);
            keyed(c, i, ents, me) == (grouped_all(n, 9, i, ents, me), k1 + ((sx + h) + nx))
        }),
{
}

proof fn first_part(c: ConsoleV, i: Input, first: Input, ents: Seq<Ent>, me: u8)
    requires
        first.f1 == i.f1 && first.f5 == i.f5 && first.escape == i.escape && first.key_a == i.key_a && first.key_s == i.key_s,
        !first.key_x && !first.key_h && !first.key_n && no_digit(first),
    ensures
        keyed(c, first, ents, me).0 == crate::console::keyed_first(c, i, ents, me).0,
        !(i.key_n && i.left_ctrl && i.left_shift) ==> keyed(c, first, ents, me).1 == crate::console::keyed_first(
            c,
            i,
            ents,
            me,
        ).1,
        crate::console::keyed_first(c, i, ents, me).0.show_map == c.show_map,
        crate::console::keyed_first(c, i, ents, me).0.chat == c.chat,
{
    let c1 = crate::console::keyed_first(c, i, ents, me).0;
    no_groups(c1, 9, first, ents, me);
    let k = crate::console::keyed_first(c, first, ents, me).1;
    let none = Seq::<EffectV>::empty();
    assert(k + (none + none + none) =~= k);
}

proof fn sell_part(c: ConsoleV, i: Input, sell: Input, ents: Seq<Ent>, me: u8)
    requires
        sell.key_x == i.key_x && sell.key_h == i.key_h && !sell.f1 && !sell.f5 && !sell.escape && !sell.key_a && !sell.key_s
            && !sell.key_n && no_digit(sell),
    ensures
        keyed(c, sell, ents, me).0 == (if i.key_x {
            crate::console::sold(c, ents, me).0
        } else {
            c
        }),
        keyed(c, sell, ents, me).1 == (if i.key_x {
            crate::console::sold(c, ents, me).1
        } else {
            Seq::empty()
        }) + crate::console::on(i.key_h, EffectV::Center),
        keyed(c, sell, ents, me).0.show_map == c.show_map,
        keyed(c, sell, ents, me).0.chat == c.chat,
{
    let x = if i.key_x {
        crate::console::sold(c, ents, me)
    } else {
        (c, Seq::empty())
    };
    no_groups(x.0, 9, sell, ents, me);
    let none = Seq::<EffectV>::empty();
    let h = crate::console::on(i.key_h, EffectV::Center);
    assert((none + none + none) + (x.1 + h + none) =~= x.1 + h);
}

proof fn arm_part(c: ConsoleV, i: Input, arm: Input, ents: Seq<Ent>, me: u8)
    requires
        arm.key_n == i.key_n && !arm.left_ctrl && !arm.f1 && !arm.f5 && !arm.escape && !arm.key_a && !arm.key_s && !arm.key_x
            && !arm.key_h && no_digit(arm),
    ensures
        keyed(c, arm, ents, me).0 == (if i.key_n {
            crate::console::armed(c, ents, me).0
        } else {
            c
        }),
        keyed(c, arm, ents, me).1 == (if i.key_n {
            crate::console::armed(c, ents, me).1
        } else {
            Seq::empty()
        }),
        keyed(c, arm, ents, me).0.show_map == c.show_map,
        keyed(c, arm, ents, me).0.chat == c.chat,
{
    let x = if i.key_n {
        crate::console::armed(c, ents, me)
    } else {
        (c, Seq::empty())
    };
    no_groups(x.0, 9, arm, ents, me);
    let none = Seq::<EffectV>::empty();
    assert((none + none + none) + (none + none + x.1) =~= x.1);
}

proof fn digits_part(c: ConsoleV, i: Input, digits: Input, ents: Seq<Ent>, me: u8)
    requires
        same_digits(i, digits) && same_held(i, digits) && !digits.f1 && !digits.f5 && !digits.escape && !digits.key_a
            && !digits.key_s && !digits.key_x && !digits.key_h && !digits.key_n,
    ensures
        keyed(c, digits, ents, me).0 == grouped_all(c, 9, i, ents, me),
{
    groups_agree(c, 9, i, digits, ents, me);
}

/// Escape comes before the keys that give orders: what it clears gets none.
pub proof fn escape_comes_first(c: ConsoleV, i: Input, esc: Input, rest: Input, ents: Seq<Ent>, me: u8)
    requires
        plays(c, i),
        no_click(i) && no_click(esc) && no_click(rest),
        no_digit(i) && no_digit(esc) && no_digit(rest),
        !esc.enter && !rest.enter,
        !i.key_x && !i.key_h && !i.key_n,
        esc.escape == i.escape && !esc.f1 && !esc.f5 && !esc.key_a && !esc.key_s && !esc.key_x && !esc.key_h && !esc.key_n,
        rest.f1 == i.f1 && rest.f5 == i.f5 && rest.key_a == i.key_a && rest.key_s == i.key_s && !rest.escape && !rest.key_x
            && !rest.key_h && !rest.key_n,
    ensures
        ({
            let a = handled(c, esc, ents, me);
            let b = handled(a.0, rest, ents, me);
            handled(c, i, ents, me) == (b.0, a.1 + b.1)
        }),
{
    no_groups(keyed_c(c, i, ents, me), 9, i, ents, me);
    no_groups(keyed_c(c, esc, ents, me), 9, esc, ents, me);
    let a = handled(c, esc, ents, me);
    assert(a.1 =~= Seq::empty());
    assert(plays(a.0, rest));
    no_groups(keyed_c(a.0, rest, ents, me), 9, rest, ents, me);
    let b = handled(a.0, rest, ents, me);
    assert(handled(c, i, ents, me).1 =~= a.1 + b.1);
    assert(handled(c, i, ents, me).0 =~= b.0);
}

/// Number keys of one frame act in turn, the lower first.
pub proof fn number_keys_act_in_turn(c: ConsoleV, i: Input, lower: Input, one: Input, n: int, ents: Seq<Ent>, me: u8)
    requires
        plays(c, i),
        no_click(i) && no_click(lower) && no_click(one),
        1 <= n <= 9,
        only_digits(i) && only_digits(lower) && only_digits(one),
        same_held(i, lower) && same_held(i, one),
        i.digits@[n - 1],
        forall|k: int| n <= k < 9 ==> !#[trigger] i.digits@[k],
        forall|k: int| 0 <= k < 9 ==> #[trigger] lower.digits@[k] == (i.digits@[k] && k < n - 1),
        forall|k: int| 0 <= k < 9 ==> #[trigger] one.digits@[k] == (k == n - 1),
    ensures
        handled(c, i, ents, me).0 == handled(handled(c, lower, ents, me).0, one, ents, me).0,
{
    turn(c, 9, i, lower, n, ents, me);
    let c1 = grouped_all(c, 9, lower, ents, me);
    groups_keep(c, 9, lower, ents, me);
    one_group(c1, 9, n, one, ents, me);
    assert(plays(c1, one));
}

/// No hotkey but number keys is pressed.
pub open spec fn only_digits(i: Input) -> bool {
    !i.enter && !i.f1 && !i.f5 && !i.escape && !i.key_a && !i.key_s && !i.key_x && !i.key_h && !i.key_n
}

proof fn turn(c: ConsoleV, m: nat, i: Input, lower: Input, n: int, ents: Seq<Ent>, me: u8)
    requires
        1 <= n <= 9,
        m <= 9,
        same_held(i, lower),
        i.digits@[n - 1],
        forall|k: int| n <= k < 9 ==> !#[trigger] i.digits@[k],
        forall|k: int| 0 <= k < 9 ==> #[trigger] lower.digits@[k] == (i.digits@[k] && k < n - 1),
    ensures
        m < n ==> grouped_all(c, m, i, ents, me) == grouped_all(c, m, lower, ents, me),
        m >= n ==> grouped_all(c, m, i, ents, me) == crate::console::grouped(
            grouped_all(c, m, lower, ents, me),
            n,
            i.left_ctrl || i.right_ctrl,
            ents,
            me,
        ),
    decreases m,
{
    if m > 0 {
        turn(c, (m - 1) as nat, i, lower, n, ents, me);
        assert(lower.digits@[m - 1] == (i.digits@[m - 1] && m - 1 < n - 1));
        if m > n {
            assert(!i.digits@[m - 1]);
        }
    }
}

/// What is typed in two goes is what is typed in one.
pub proof fn typing_goes_on(line: Seq<char>, a: Seq<char>, b: Seq<char>)
    ensures
        crate::console::typed_all(line, a + b) == crate::console::typed_all(crate::console::typed_all(line, a), b),
    decreases b.len(),
{
    if b.len() == 0 {
        assert(a + b =~= a);
    } else {
        typing_goes_on(line, a, b.drop_last());
        assert((a + b).drop_last() =~= a + b.drop_last());
    }
}

/// Enter says the line, with what was typed into it in the same frame: what it says is ordered, and if it says
/// nothing, nothing is.
pub proof fn enter_says_the_line(c: ConsoleV, i: Input, ents: Seq<Ent>, me: u8, line: Seq<char>)
    requires
        !c.show_map,
        c.chat == Some(line),
        i.enter,
        !i.backspace,
    ensures
        ({
            let fx = handled(c, i, ents, me).1;
            match crate::chat::spoken(crate::console::typed_all(line, i.typed@)) {
                Some(cmd) => fx == seq![EffectV::Order(cmd)],
                None => fx.len() == 0,
            }
        }),
        crate::console::typed_all(line, Seq::empty()) == line,
{
}

} // verus!
