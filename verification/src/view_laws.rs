//! What the player sees and is told: which alerts are raised, what is drawn and picked, where the camera looks,
//! and what a report says.

use crate::alerts::{
    alerts_of, anchor_of, anchored, capped, hurt, lost, moved, moved_all, raised, seen, stands, standing,
    watched, Alert, Anchor, Placed, Plight, Pos, Ready, WatchV, Watched,
};
use crate::args::{paged, ArgsV};
use crate::command::Eid;
use crate::console::Ent;
use crate::effects::{alive_of, ttl_of, VisEvent};
use crate::frame::{
    building_owners, first_action, first_building, first_of, first_unit, focus_of, home_of, Focus,
};
use crate::report::{away_report_due, away_secs, chat_shown, report_lines, AwayLog, Tone};
use crate::scene::{
    affords, busiest_of, covers, distance2, helper_of, near_count, owned, painted, queued, within_reach,
    Figure, Goods, Hit, Spotted,
};
use crate::text::dec;
use vstd::prelude::*;

verus! {

// ----------------------------------------------------------------------
// Alerts
// ----------------------------------------------------------------------

/// A short list takes the newest at its end, and once it is full the oldest leaves.
pub proof fn short_lists_keep_the_newest(v: Seq<int>, x: int, cap: nat)
    requires
        v.len() <= cap,
        cap > 0,
    ensures
        v.len() < cap ==> capped(v, x, cap) == v.push(x),
        v.len() == cap ==> capped(v, x, cap) == v.drop_first().push(x),
{
    if v.len() == cap {
        assert(v.push(x).drop_first() =~= v.drop_first().push(x));
    }
}

proof fn watching(ents: Seq<Ent>, me: u8)
    ensures
        forall|j: int|
            0 <= j < watched(ents, me).len() ==> exists|k: int|
                0 <= k < ents.len() && (#[trigger] ents[k]).owner == me && ents[k].hp > 0 && sighting(
                    ents[k],
                    #[trigger] watched(ents, me)[j],
                ),
        forall|k: int|
            0 <= k < ents.len() && (#[trigger] ents[k]).owner == me && ents[k].hp > 0 ==> exists|j: int|
                0 <= j < watched(ents, me).len() && sighting(ents[k], #[trigger] watched(ents, me)[j]),
    decreases ents.len(),
{
    if ents.len() > 0 {
        let rest = ents.drop_last();
        watching(rest, me);
        let a = watched(rest, me);
        let b = watched(ents, me);
        assert forall|j: int| 0 <= j < b.len() implies exists|k: int|
            0 <= k < ents.len() && (#[trigger] ents[k]).owner == me && ents[k].hp > 0 && sighting(ents[k], #[trigger] b[j]) by {
            if j < a.len() {
                assert(a[j] == b[j]);
                let k = choose|k: int|
                    0 <= k < rest.len() && (#[trigger] rest[k]).owner == me && rest[k].hp > 0 && sighting(rest[k], a[j]);
                assert(ents[k] == rest[k]);
            } else {
                assert(sighting(ents[ents.len() - 1], b[j]));
            }
        }
        assert forall|k: int| 0 <= k < ents.len() && (#[trigger] ents[k]).owner == me && ents[k].hp > 0 implies exists|j: int|
            0 <= j < b.len() && sighting(ents[k], #[trigger] b[j]) by {
            if k < rest.len() {
                assert(rest[k] == ents[k]);
                let j = choose|j: int| 0 <= j < a.len() && sighting(rest[k], #[trigger] a[j]);
                assert(b[j] == a[j]);
            } else {
                assert(sighting(ents[k], b[b.len() - 1]));
            }
        }
    }
}

/// Was the entity seen so?
pub open spec fn sighting(e: Ent, w: Watched) -> bool {
    w.id == e.id && w.hp == e.hp && w.building == e.building
}

/// Has one of ours less health than when it was last seen?
pub open spec fn bleeds(before: Seq<Watched>, ents: Seq<Ent>, me: u8) -> bool {
    exists|i: int, k: int|
        0 <= i < before.len() && 0 <= k < ents.len() && (#[trigger] ents[k]).owner == me && ents[k].hp > 0 && ents[k].id == (
        #[trigger] before[i]).id && ents[k].hp < before[i].hp
}

/// Does one of ours live under the handle?
pub open spec fn lives(ents: Seq<Ent>, me: u8, id: Eid) -> bool {
    exists|k: int| 0 <= k < ents.len() && (#[trigger] ents[k]).owner == me && ents[k].hp > 0 && ents[k].id == id
}

/// How many of those that were seen alive are gone, buildings or units.
pub open spec fn gone(before: Seq<Watched>, ents: Seq<Ent>, me: u8, building: bool) -> nat
    decreases before.len(),
{
    if before.len() == 0 {
        0
    } else {
        gone(before.drop_last(), ents, me, building) + if before.last().hp > 0 && before.last().building == building && !lives(
            ents,
            me,
            before.last().id,
        ) {
            1nat
        } else {
            0nat
        }
    }
}

proof fn bleeding(before: Seq<Watched>, ents: Seq<Ent>, me: u8)
    ensures
        hurt(before, watched(ents, me)) == bleeds(before, ents, me),
{
    let now = watched(ents, me);
    if hurt(before, now) {
        let (i, j) = choose|i: int, j: int|
            0 <= i < before.len() && 0 <= j < now.len() && (#[trigger] before[i]).id == (#[trigger] now[j]).id && now[j].hp
                < before[i].hp;
        watching(ents, me);
        let k = choose|k: int| 0 <= k < ents.len() && (#[trigger] ents[k]).owner == me && ents[k].hp > 0 && sighting(ents[k], now[j]);
        assert(ents[k].id == before[i].id);
    }
    if bleeds(before, ents, me) {
        let (i, k) = choose|i: int, k: int|
            0 <= i < before.len() && 0 <= k < ents.len() && (#[trigger] ents[k]).owner == me && ents[k].hp > 0 && ents[k].id == (
            #[trigger] before[i]).id && ents[k].hp < before[i].hp;
        watching(ents, me);
        let j = choose|j: int| 0 <= j < now.len() && sighting(ents[k], #[trigger] now[j]);
        assert(before[i].id == now[j].id);
    }
}

proof fn living(ents: Seq<Ent>, me: u8, id: Eid)
    ensures
        seen(watched(ents, me), id) == lives(ents, me, id),
{
    let now = watched(ents, me);
    watching(ents, me);
    if seen(now, id) {
        let j = choose|j: int| 0 <= j < now.len() && (#[trigger] now[j]).id == id;
        let k = choose|k: int| 0 <= k < ents.len() && (#[trigger] ents[k]).owner == me && ents[k].hp > 0 && sighting(ents[k], now[j]);
        assert(ents[k].id == id);
    }
    if lives(ents, me, id) {
        let k = choose|k: int| 0 <= k < ents.len() && (#[trigger] ents[k]).owner == me && ents[k].hp > 0 && ents[k].id == id;
        let j = choose|j: int| 0 <= j < now.len() && sighting(ents[k], #[trigger] now[j]);
        assert(now[j].id == id);
    }
}

proof fn losing(before: Seq<Watched>, ents: Seq<Ent>, me: u8, building: bool)
    ensures
        lost(before, watched(ents, me), building) == gone(before, ents, me, building),
        gone(before, ents, me, building) <= before.len(),
    decreases before.len(),
{
    if before.len() > 0 {
        losing(before.drop_last(), ents, me, building);
        living(ents, me, before.last().id);
    }
}

proof fn among(a: Seq<Alert>, b: Seq<Alert>, x: Alert)
    ensures
        (a + b).contains(x) <==> a.contains(x) || b.contains(x),
{
    let c = a + b;
    if c.contains(x) {
        let i = choose|i: int| 0 <= i < c.len() && c[i] == x;
        if i < a.len() {
            assert(a[i] == x);
        } else {
            assert(b[i - a.len()] == x);
        }
    }
    if a.contains(x) {
        let i = choose|i: int| 0 <= i < a.len() && a[i] == x;
        assert(c[i] == x);
    }
    if b.contains(x) {
        let i = choose|i: int| 0 <= i < b.len() && b[i] == x;
        assert(c[a.len() + i] == x);
    }
}

proof fn raising(on: bool, a: Alert, x: Alert)
    ensures
        raised(on, a).contains(x) <==> on && x == a,
{
    if on {
        assert(raised(on, a)[0] == a);
    }
}

/// An attack is announced when one of ours lost health and the last such alert is long enough ago, to the desktop
/// too if the player is away; lost buildings are counted, and lost units from three on; each plight is announced as
/// it begins. Nothing else is announced.
pub proof fn the_player_is_warned(w: WatchV, ents: Seq<Ent>, me: u8, p: Plight, r: Ready, x: Alert)
    requires
        w.ours.len() <= u64::MAX,
    ensures
        alerts_of(w, ents, me, p, r).contains(x) <==> match x {
            Alert::UnderAttack { notify } => bleeds(w.ours, ents, me) && r.alert && notify == (!r.demo && r.idle && r.notify),
            Alert::BuildingsLost(n) => n > 0 && n == gone(w.ours, ents, me, true),
            Alert::UnitsLost(n) => n >= 3 && n == gone(w.ours, ents, me, false),
            Alert::LowPower => p.low_power && !w.plight.low_power,
            Alert::Starving => p.starving && !w.plight.starving,
            Alert::Eliminated { notify } => p.defeated && !w.plight.defeated && notify == !r.demo,
        },
{
    bleeding(w.ours, ents, me);
    losing(w.ours, ents, me, true);
    losing(w.ours, ents, me, false);
    let now = watched(ents, me);
    let a = raised(hurt(w.ours, now) && r.alert, Alert::UnderAttack { notify: !r.demo && r.idle && r.notify });
    let nb = lost(w.ours, now, true);
    let nu = lost(w.ours, now, false);
    let b = raised(nb > 0, Alert::BuildingsLost(nb as u64));
    let c = raised(nu >= 3, Alert::UnitsLost(nu as u64));
    let d = raised(p.low_power && !w.plight.low_power, Alert::LowPower);
    let e = raised(p.starving && !w.plight.starving, Alert::Starving);
    let f = raised(p.defeated && !w.plight.defeated, Alert::Eliminated { notify: !r.demo });
    among(a, b, x);
    among(a + b, c, x);
    among(a + b + c, d, x);
    among(a + b + c + d, e, x);
    among(a + b + c + d + e, f, x);
    raising(hurt(w.ours, now) && r.alert, Alert::UnderAttack { notify: !r.demo && r.idle && r.notify }, x);
    raising(nb > 0, Alert::BuildingsLost(nb as u64), x);
    raising(nu >= 3, Alert::UnitsLost(nu as u64), x);
    raising(p.low_power && !w.plight.low_power, Alert::LowPower, x);
    raising(p.starving && !w.plight.starving, Alert::Starving, x);
    raising(p.defeated && !w.plight.defeated, Alert::Eliminated { notify: !r.demo }, x);
}

/// A unit that moved is drawn from where it was to where it is; one that stood still, as before; one that is new,
/// where it is.
pub proof fn units_glide(s: Seq<Anchor>, u: Placed)
    ensures
        ({
            let now = anchor_of(moved(s, u), u.id);
            match anchor_of(s, u.id) {
                None => now == Some(Anchor { id: u.id, from: u.pos, to: u.pos }),
                Some(a) => now == Some(
                    if a.to == u.pos {
                        a
                    } else {
                        Anchor { id: u.id, from: a.to, to: u.pos }
                    },
                ),
            }
        }),
    decreases s.len(),
{
    if s.len() > 0 {
        if s[0].id == u.id {
            assert(moved(s, u)[0].id == u.id);
        } else {
            units_glide(s.drop_first(), u);
            let m = moved(s, u);
            assert(m[0] == s[0]);
            assert(m.drop_first() =~= moved(s.drop_first(), u));
        }
    } else {
        let m = moved(s, u);
        assert(m[0].id == u.id);
    }
}

// ----------------------------------------------------------------------
// Drawing and picking
// ----------------------------------------------------------------------

/// What is painted is ours, in sight, or a building that was seen; the rest is not. What lies farther back is
/// painted first, and at one depth buildings before units.
pub proof fn scenes_are_painted_back_to_front(fs: Seq<Figure>, s: Seq<nat>, i: int, j: int, k: nat)
    requires
        painted(fs, s),
        0 <= i < j < s.len(),
        k < fs.len(),
    ensures
        fs[s[i] as int].depth <= fs[s[j] as int].depth,
        fs[s[i] as int].depth == fs[s[j] as int].depth && fs[s[i] as int].unit ==> fs[s[j] as int].unit,
        s[i] != s[j],
        s.contains(k) <==> fs[k as int].mine || fs[k as int].fog == 2 || (fs[k as int].fog == 1 && fs[k as int].building),
{
    if s.contains(k) {
        let x = choose|x: int| 0 <= x < s.len() && s[x] == k;
        assert(crate::scene::shown(fs[s[x] as int]));
    }
    if crate::scene::shown(fs[k as int]) {
        assert(s.contains(k));
    }
    assert(crate::scene::drawn_before(fs, s[i], s[j]));
}

/// What is picked is at least as far in front as anything else there; of what is equally far in front a unit is
/// picked before a building, and ours before others'.
pub proof fn picks_are_on_top(a: Hit, b: Hit)
    requires
        covers(a, b),
    ensures
        a.depth >= b.depth,
        a.depth == b.depth && b.unit ==> a.unit,
        a.depth == b.depth && a.unit == b.unit && b.mine ==> a.mine,
{
}

/// Something is affordable exactly if there is enough of everything that it costs.
pub proof fn purses_must_hold_the_price(purse: Goods, price: Goods)
    ensures
        affords(purse, price) <==> price.credits <= purse.credits && price.wood <= purse.wood && price.stone <= purse.stone
            && price.essence <= purse.essence,
{
}

/// A button counts every order for its unit that is queued.
pub proof fn orders_are_counted(queue: Seq<u8>, kind: u8, k: u8)
    ensures
        queued(queue.push(k), kind) == queued(queue, kind) + (if k == kind {
            1nat
        } else {
            0nat
        }),
        queued(Seq::empty(), kind) == 0,
{
    assert(queue.push(k).drop_last() =~= queue);
}

/// The first of the places that is near enough helps; where none is, none does.
proof fn reaching(places: Seq<Pos>, at: Pos, r2: int, k: int)
    requires
        0 <= k <= places.len(),
        k < places.len() ==> is_close(at, places[k], r2),
        forall|j: int| 0 <= j < k ==> !is_close(at, #[trigger] places[j], r2),
    ensures
        within_reach(places, at, r2) == (if k < places.len() {
            Some(places[k])
        } else {
            None
        }),
    decreases places.len(),
{
    if places.len() > 0 {
        assert(is_close(at, places[0], r2) == (distance2(at, places[0]) <= r2));
        if k > 0 {
            assert(!is_close(at, places[0], r2));
            let rest = places.drop_first();
            assert forall|j: int| 0 <= j < k - 1 implies !is_close(at, #[trigger] rest[j], r2) by {
                assert(rest[j] == places[j + 1]);
            }
            reaching(rest, at, r2, k - 1);
        }
    }
}

/// Do two positions lie within a distance, given by its square?
pub open spec fn is_close(a: Pos, b: Pos, r2: int) -> bool {
    (a.x - b.x) * (a.x - b.x) + (a.y - b.y) * (a.y - b.y) <= r2
}

/// A hurt vehicle is helped by the first depot near it; a hurt soldier by the first med bay near enough, and only
/// where there is none by the first house near them.
pub proof fn the_hurt_are_helped(
    at: Pos,
    depots: Seq<Pos>,
    bays: Seq<Pos>,
    houses: Seq<Pos>,
    near2: int,
    far2: int,
    d: int,
    b: int,
    h: int,
)
    requires
        0 <= d <= depots.len(),
        d < depots.len() ==> is_close(at, depots[d], near2),
        forall|j: int| 0 <= j < d ==> !is_close(at, #[trigger] depots[j], near2),
        0 <= b <= bays.len(),
        b < bays.len() ==> is_close(at, bays[b], far2),
        forall|j: int| 0 <= j < b ==> !is_close(at, #[trigger] bays[j], far2),
        0 <= h <= houses.len(),
        h < houses.len() ==> is_close(at, houses[h], near2),
        forall|j: int| 0 <= j < h ==> !is_close(at, #[trigger] houses[j], near2),
    ensures
        helper_of(false, at, depots, bays, houses, near2, far2) == (if d < depots.len() {
            Some(depots[d])
        } else {
            None
        }),
        helper_of(true, at, depots, bays, houses, near2, far2) == (if b < bays.len() {
            Some(bays[b])
        } else if h < houses.len() {
            Some(houses[h])
        } else {
            None
        }),
{
    reaching(depots, at, near2, d);
    reaching(bays, at, far2, b);
    reaching(houses, at, near2, h);
}

/// A monster counts as near exactly if it is within 34 tiles of the middle both ways.
pub proof fn near_monsters_count(ms: Seq<Spotted>, m: Spotted, cx: int, cy: int)
    ensures
        near_count(ms.push(m), cx, cy) == near_count(ms, cx, cy) + (if cx - 34 <= m.x <= cx + 34 && cy - 34 <= m.y <= cy + 34 {
            1nat
        } else {
            0nat
        }),
        near_count(Seq::empty(), cx, cy) == 0,
{
    assert(ms.push(m).drop_last() =~= ms);
}

/// An effect is seen exactly while it is younger than its time.
pub proof fn effects_fade(evs: Seq<(VisEvent, u32)>, n: int, k: int)
    requires
        0 <= k < n <= evs.len(),
        n <= usize::MAX,
    ensures
        alive_of(evs, n).contains(k as usize) <==> evs[k].1 < ttl_of(evs[k].0),
    decreases n,
{
    let all = alive_of(evs, n);
    let head = alive_of(evs, n - 1);
    fading(evs, n - 1);
    if k < n - 1 {
        effects_fade(evs, n - 1, k);
        if head.contains(k as usize) {
            let i = choose|i: int| 0 <= i < head.len() && head[i] == k as usize;
            assert(all[i] == k as usize);
        }
        if all.contains(k as usize) {
            let i = choose|i: int| 0 <= i < all.len() && all[i] == k as usize;
            if i < head.len() {
                assert(head[i] == k as usize);
            }
        }
    } else {
        if evs[k].1 < ttl_of(evs[k].0) {
            assert(all[all.len() - 1] == k as usize);
        } else if all.contains(k as usize) {
            let i = choose|i: int| 0 <= i < all.len() && all[i] == k as usize;
            assert(head[i] < n - 1);
        }
    }
}

proof fn fading(evs: Seq<(VisEvent, u32)>, n: int)
    requires
        0 <= n <= evs.len(),
        n <= usize::MAX,
    ensures
        forall|i: int| 0 <= i < alive_of(evs, n).len() ==> #[trigger] alive_of(evs, n)[i] < n,
    decreases n,
{
    if n > 0 {
        fading(evs, n - 1);
        let head = alive_of(evs, n - 1);
        let all = alive_of(evs, n);
        assert forall|i: int| 0 <= i < all.len() implies #[trigger] all[i] < n by {
            if i < head.len() {
                assert(all[i] == head[i]);
            }
        }
    }
}

// ----------------------------------------------------------------------
// The camera
// ----------------------------------------------------------------------

proof fn first_found(ents: Seq<Ent>, owner: u8, yard: Option<u8>, from: int, k: int)
    requires
        0 <= from <= k <= ents.len(),
        k < ents.len() ==> ents[k].owner == owner && (yard is None || ents[k].kind == yard->0),
        forall|j: int| from <= j < k ==> (#[trigger] ents[j]).owner != owner || (yard is Some && ents[j].kind != yard->0),
    ensures
        first_of(ents, owner, yard, from) == (if k < ents.len() {
            Some(k)
        } else {
            None
        }),
    decreases k - from,
{
    if from < k {
        assert(ents[from].owner != owner || (yard is Some && ents[from].kind != yard->0));
        first_found(ents, owner, yard, from + 1, k);
    }
}

/// The camera looks for a player's first construction yard, and where there is none for whatever is theirs first.
pub proof fn the_camera_finds_home(ents: Seq<Ent>, owner: u8, yard: u8, k: int, n: int)
    requires
        0 <= k <= ents.len(),
        k < ents.len() ==> ents[k].owner == owner && ents[k].kind == yard,
        forall|j: int| 0 <= j < k ==> (#[trigger] ents[j]).owner != owner || ents[j].kind != yard,
        0 <= n <= ents.len(),
        n < ents.len() ==> ents[n].owner == owner,
        forall|j: int| 0 <= j < n ==> (#[trigger] ents[j]).owner != owner,
    ensures
        home_of(ents, owner, yard) == (if k < ents.len() {
            Some(k)
        } else if n < ents.len() {
            Some(n)
        } else {
            None
        }),
{
    first_found(ents, owner, Some(yard), 0, k);
    first_found(ents, owner, None, 0, n);
}

/// The first shot of the reel shows our first construction yard; the later ones the first shot or death there is, and
/// otherwise the first unit that somebody owns.
pub proof fn the_reel_shows_home_and_fights(
    shot: nat,
    me: u8,
    neutral: u8,
    yard: u8,
    ents: Seq<Ent>,
    fx: Seq<VisEvent>,
    k: int,
    f: int,
    u: int,
)
    requires
        ents.len() <= usize::MAX,
        fx.len() <= usize::MAX,
        0 <= k <= ents.len(),
        k < ents.len() ==> ents[k].owner == me && ents[k].kind == yard,
        forall|j: int| 0 <= j < k ==> (#[trigger] ents[j]).owner != me || ents[j].kind != yard,
        0 <= f <= fx.len(),
        f < fx.len() ==> fx[f] is Shot || fx[f] is Die,
        forall|j: int| 0 <= j < f ==> !(#[trigger] fx[j] is Shot) && !(fx[j] is Die),
        0 <= u <= ents.len(),
        u < ents.len() ==> ents[u].owner != neutral && ents[u].unit,
        forall|j: int| 0 <= j < u ==> (#[trigger] ents[j]).owner == neutral || !ents[j].unit,
    ensures
        focus_of(0, me, neutral, yard, ents, fx) == (if k < ents.len() {
            Some(Focus::Ent(k as usize))
        } else {
            None
        }),
        shot >= 2 ==> focus_of(shot, me, neutral, yard, ents, fx) == (if f < fx.len() {
            Some(Focus::Event(f as usize))
        } else if u < ents.len() {
            Some(Focus::Ent(u as usize))
        } else {
            None
        }),
{
    first_found(ents, me, Some(yard), 0, k);
    first_fight(fx, 0, f);
    first_fighter(ents, neutral, 0, u);
}

proof fn first_fight(fx: Seq<VisEvent>, from: int, f: int)
    requires
        0 <= from <= f <= fx.len(),
        f < fx.len() ==> fx[f] is Shot || fx[f] is Die,
        forall|j: int| from <= j < f ==> !(#[trigger] fx[j] is Shot) && !(fx[j] is Die),
    ensures
        first_action(fx, from) == (if f < fx.len() {
            Some(f)
        } else {
            None
        }),
    decreases f - from,
{
    if from < f {
        assert(!(fx[from] is Shot));
        first_fight(fx, from + 1, f);
    }
}

proof fn first_fighter(ents: Seq<Ent>, neutral: u8, from: int, u: int)
    requires
        0 <= from <= u <= ents.len(),
        u < ents.len() ==> ents[u].owner != neutral && ents[u].unit,
        forall|j: int| from <= j < u ==> (#[trigger] ents[j]).owner == neutral || !ents[j].unit,
    ensures
        first_unit(ents, neutral, from) == (if u < ents.len() {
            Some(u)
        } else {
            None
        }),
    decreases u - from,
{
    if from < u {
        assert(ents[from].owner == neutral || !ents[from].unit);
        first_fighter(ents, neutral, from + 1, u);
    }
}

// ----------------------------------------------------------------------
// Reports
// ----------------------------------------------------------------------

/// A report is due after more than thirty seconds in which something happened.
pub proof fn absences_are_reported(tick: u32, from_tick: u32, eventful: bool)
    ensures
        away_report_due(tick, from_tick, eventful) <==> eventful && tick > from_tick + 300,
        tick >= from_tick ==> away_secs(from_tick, tick) == (tick - from_tick) / 10,
        tick < from_tick ==> away_secs(from_tick, tick) == 0,
{
}

proof fn lines_among(a: Seq<(Seq<char>, Tone)>, b: Seq<(Seq<char>, Tone)>, x: (Seq<char>, Tone))
    ensures
        a.contains(x) ==> (a + b).contains(x),
        b.contains(x) ==> (a + b).contains(x),
{
    let c = a + b;
    if a.contains(x) {
        let i = choose|i: int| 0 <= i < a.len() && a[i] == x;
        assert(c[i] == x);
    }
    if b.contains(x) {
        let i = choose|i: int| 0 <= i < b.len() && b[i] == x;
        assert(c[a.len() + i] == x);
    }
}

/// The report tells what was earned, what was looted, how many buildings and units were lost and who came, each if
/// there is anything of it to tell; and that all was quiet if nothing was lost.
pub proof fn reports_tell_what_happened(log: AwayLog, tick: u32)
    ensures
        ({
            let ls = report_lines(log, tick);
            &&& log.credits_gained > 0 ==> ls.contains(
                ("+"@ + dec(log.credits_gained as nat) + " credits earned while you slept"@, Tone::Good),
            )
            &&& log.credits_lost > 0 ==> ls.contains(
                ("-"@ + dec(log.credits_lost as nat) + " credits looted by raiders"@, Tone::Bad),
            )
            &&& log.buildings_lost > 0 ==> ls.contains(
                (""@ + dec(log.buildings_lost as nat) + " building(s) destroyed"@, Tone::Bad),
            )
            &&& log.units_lost > 0 ==> ls.contains((""@ + dec(log.units_lost as nat) + " unit(s) lost"@, Tone::Bad))
            &&& log.attacks > 0 && log.raider is Some ==> ls.contains(
                ("Your valley was raided by "@ + log.raider->0@ + "."@, Tone::Bad),
            )
            &&& log.attacks > 0 && log.raider is None ==> ls.contains(
                ("Your valley was raided by "@ + "an unknown raider"@ + "."@, Tone::Bad),
            )
            &&& log.credits_lost == 0 && log.buildings_lost == 0 && log.units_lost == 0 ==> ls.contains(
                ("Your base stood untouched. The valley was quiet."@, Tone::Plain),
            )
        }),
{
    let quiet = log.credits_lost == 0 && log.buildings_lost == 0 && log.units_lost == 0;
    let blank = Seq::<char>::empty();
    let l1 = ("+"@ + dec(log.credits_gained as nat) + " credits earned while you slept"@, Tone::Good);
    let l2 = ("-"@ + dec(log.credits_lost as nat) + " credits looted by raiders"@, Tone::Bad);
    let l3 = (""@ + dec(log.buildings_lost as nat) + " building(s) destroyed"@, Tone::Bad);
    let l4 = (""@ + dec(log.units_lost as nat) + " unit(s) lost"@, Tone::Bad);
    let l5 = ("Your valley was raided by "@ + crate::report::raider_of(log) + "."@, Tone::Bad);
    let l6 = ("Your base stood untouched. The valley was quiet."@, Tone::Plain);
    let ls = report_lines(log, tick);
    let s0 = ls.take(2);
    let w1 = crate::report::when(log.credits_gained > 0, l1.0, l1.1);
    let w2 = crate::report::when(log.credits_lost > 0, l2.0, l2.1);
    let w3 = crate::report::when(log.buildings_lost > 0, l3.0, l3.1);
    let w4 = crate::report::when(log.units_lost > 0, l4.0, l4.1);
    let w5 = crate::report::when(log.attacks > 0, blank, Tone::Plain);
    let w6 = crate::report::when(log.attacks > 0, l5.0, l5.1);
    let w7 = crate::report::when(quiet, blank, Tone::Plain);
    let w8 = crate::report::when(quiet, l6.0, l6.1);
    let tail = seq![(blank, Tone::Plain), ("press any key to continue"@, Tone::Plain)];
    assert(ls =~= s0 + w1 + w2 + w3 + w4 + w5 + w6 + w7 + w8 + tail);
    let a1 = s0 + w1;
    let a2 = a1 + w2;
    let a3 = a2 + w3;
    let a4 = a3 + w4;
    let a5 = a4 + w5;
    let a6 = a5 + w6;
    let a7 = a6 + w7;
    let a8 = a7 + w8;
    assert(log.credits_gained > 0 ==> w1[0] == l1);
    assert(log.credits_lost > 0 ==> w2[0] == l2);
    assert(log.buildings_lost > 0 ==> w3[0] == l3);
    assert(log.units_lost > 0 ==> w4[0] == l4);
    assert(log.attacks > 0 ==> w6[0] == l5);
    assert(quiet ==> w8[0] == l6);
    lines_among(s0, w1, l1);
    lines_among(a1, w2, l1);
    lines_among(a2, w3, l1);
    lines_among(a3, w4, l1);
    lines_among(a4, w5, l1);
    lines_among(a5, w6, l1);
    lines_among(a6, w7, l1);
    lines_among(a7, w8, l1);
    lines_among(a8, tail, l1);
    lines_among(a1, w2, l2);
    lines_among(a2, w3, l2);
    lines_among(a3, w4, l2);
    lines_among(a4, w5, l2);
    lines_among(a5, w6, l2);
    lines_among(a6, w7, l2);
    lines_among(a7, w8, l2);
    lines_among(a8, tail, l2);
    lines_among(a2, w3, l3);
    lines_among(a3, w4, l3);
    lines_among(a4, w5, l3);
    lines_among(a5, w6, l3);
    lines_among(a6, w7, l3);
    lines_among(a7, w8, l3);
    lines_among(a8, tail, l3);
    lines_among(a3, w4, l4);
    lines_among(a4, w5, l4);
    lines_among(a5, w6, l4);
    lines_among(a6, w7, l4);
    lines_among(a7, w8, l4);
    lines_among(a8, tail, l4);
    lines_among(a5, w6, l5);
    lines_among(a6, w7, l5);
    lines_among(a7, w8, l5);
    lines_among(a8, tail, l5);
    lines_among(a7, w8, l6);
    lines_among(a8, tail, l6);
}

/// Is a line of chat young enough to be seen, or is the player typing?
pub open spec fn young(said: u32, tick: u32, typing: bool) -> bool {
    typing || tick <= said + 220
}

proof fn window(said: Seq<u32>, n: nat, room: nat, tick: u32, typing: bool)
    requires
        n <= said.len(),
    ensures
        ({
            let s = chat_shown(said, n, room, tick, typing);
            &&& s.len() <= room
            &&& forall|i: int| 0 <= i < s.len() ==> (#[trigger] s[i]) < n && young(said[s[i] as int], tick, typing)
            &&& forall|i: int, j: int| 0 <= i < j < s.len() ==> (#[trigger] s[j]) < (#[trigger] s[i])
            &&& forall|k: nat|
                k < n && young(#[trigger] said[k as int], tick, typing) && !s.contains(k) ==> s.len() == room && forall|i: int|
                    0 <= i < s.len() ==> k < #[trigger] s[i]
        }),
    decreases n,
{
    let s = chat_shown(said, n, room, tick, typing);
    if n > 0 && room > 0 {
        let m = (n - 1) as nat;
        if young(said[n - 1], tick, typing) {
            window(said, m, (room - 1) as nat, tick, typing);
            let rest = chat_shown(said, m, (room - 1) as nat, tick, typing);
            assert(s =~= seq![m] + rest);
            assert forall|i: int| 0 <= i < s.len() implies (#[trigger] s[i]) < n && young(said[s[i] as int], tick, typing) by {
                if i > 0 {
                    assert(s[i] == rest[i - 1]);
                }
            }
            assert forall|i: int, j: int| 0 <= i < j < s.len() implies (#[trigger] s[j]) < (#[trigger] s[i]) by {
                assert(s[j] == rest[j - 1]);
                if i > 0 {
                    assert(s[i] == rest[i - 1]);
                }
            }
            assert forall|k: nat| k < n && young(#[trigger] said[k as int], tick, typing) && !s.contains(k) implies s.len() == room
                && forall|i: int| 0 <= i < s.len() ==> k < #[trigger] s[i] by {
                assert(s[0] == m);
                assert(k != m);
                if rest.contains(k) {
                    let i = choose|i: int| 0 <= i < rest.len() && rest[i] == k;
                    assert(s[i + 1] == k);
                }
                assert forall|i: int| 0 <= i < s.len() implies k < #[trigger] s[i] by {
                    if i > 0 {
                        assert(s[i] == rest[i - 1]);
                    }
                }
            }
        } else {
            window(said, m, room, tick, typing);
        }
    }
}

/// The chat window shows the newest lines that are young enough, six at most, the newest first: a young line that is
/// not shown is older than the six that are.
pub proof fn the_newest_lines_are_shown(said: Seq<u32>, tick: u32, typing: bool, k: nat, i: int)
    requires
        k < said.len(),
    ensures
        ({
            let s = chat_shown(said, said.len(), 6, tick, typing);
            &&& s.len() <= 6
            &&& s.contains(k) ==> young(said[k as int], tick, typing)
            &&& young(said[k as int], tick, typing) && !s.contains(k) ==> s.len() == 6 && (0 <= i < 6 ==> k < s[i])
            &&& 0 <= i < s.len() - 1 ==> s[i + 1] < s[i]
        }),
{
    window(said, said.len(), 6, tick, typing);
}

// ----------------------------------------------------------------------
// The page
// ----------------------------------------------------------------------

/// A page's parameters set what they name: the region and its terrain, unless a seed is given too; the name; one of
/// eight colors; six bots at most. What is not given stays.
pub proof fn pages_set_what_they_name(a: ArgsV, region: Seq<char>, name: Seq<char>, n: nat)
    ensures
        paged(a, None, None, None, None, None) == a,
        paged(a, None, Some(name), None, None, None) == (ArgsV { name, ..a }),
        ({
            let b = paged(a, Some(region), None, None, None, None);
            b == (ArgsV { region, seed: b.seed, seed_set: true, ..a })
        }),
        n <= 255 ==> paged(a, None, None, Some(dec(n)), None, None) == (ArgsV { color: (n % 8) as u8, color_set: true, ..a }),
        n <= usize::MAX ==> paged(a, None, None, None, Some(dec(n)), None) == (ArgsV {
            bots: if n < 6 {
                n as usize
            } else {
                6
            },
            ..a
        }),
        n <= u64::MAX ==> paged(a, None, None, None, None, Some(dec(n))) == (ArgsV { seed: n as u64, seed_set: true, ..a }),
        n <= u64::MAX ==> paged(a, Some(region), None, None, None, Some(dec(n))) == (ArgsV {
            region,
            seed: n as u64,
            seed_set: true,
            ..a
        }),
{
    crate::text::dec_reads_back(n);
    assert('0' <= dec(n)[0] <= '9');
}

// ----------------------------------------------------------------------
// The busiest rival
// ----------------------------------------------------------------------

/// How many buildings a player has.
pub open spec fn buildings_of(ents: Seq<Ent>, p: u8) -> nat
    decreases ents.len(),
{
    if ents.len() == 0 {
        0
    } else {
        buildings_of(ents.drop_last(), p) + if ents.last().building && ents.last().owner == p {
            1nat
        } else {
            0nat
        }
    }
}

proof fn owning(ents: Seq<Ent>, p: u8)
    ensures
        owned(building_owners(ents), p) == buildings_of(ents, p),
    decreases ents.len(),
{
    if ents.len() > 0 {
        owning(ents.drop_last(), p);
        let head = building_owners(ents.drop_last());
        if ents.last().building {
            assert(head.push(ents.last().owner).drop_last() =~= head);
        }
    }
}

proof fn busiest(owners: Seq<u8>, me: u8, n: nat)
    requires
        n <= 8,
    ensures
        match crate::scene::busiest_before(owners, me, n) {
            Some(q) => q < n && q != me && owned(owners, q) > 0 && (forall|p: u8|
                p < n && p != me ==> #[trigger] owned(owners, p) <= owned(owners, q)) && (forall|p: u8|
                p < q && p != me ==> #[trigger] owned(owners, p) < owned(owners, q)),
            None => forall|p: u8| p < n && p != me ==> #[trigger] owned(owners, p) == 0,
        },
    decreases n,
{
    if n > 0 {
        busiest(owners, me, (n - 1) as nat);
    }
}

/// The second shot of the reel shows the base of the rival with the most buildings, of those alike the first: its first
/// construction yard, or else its first building. Where no rival has any it shows nothing.
pub proof fn the_reel_shows_the_busiest_rival(me: u8, neutral: u8, yard: u8, ents: Seq<Ent>, fx: Seq<VisEvent>, q: u8, k: int, b: int)
    requires
        ents.len() <= usize::MAX,
        q < 8,
        q != me,
        buildings_of(ents, q) > 0,
        forall|p: u8| p < 8 && p != me ==> #[trigger] buildings_of(ents, p) <= buildings_of(ents, q),
        forall|p: u8| p < q && p != me ==> #[trigger] buildings_of(ents, p) < buildings_of(ents, q),
        0 <= k <= ents.len(),
        k < ents.len() ==> ents[k].owner == q && ents[k].kind == yard,
        forall|j: int| 0 <= j < k ==> (#[trigger] ents[j]).owner != q || ents[j].kind != yard,
        0 <= b < ents.len(),
        ents[b].owner == q && ents[b].building,
        forall|j: int| 0 <= j < b ==> (#[trigger] ents[j]).owner != q || !ents[j].building,
    ensures
        focus_of(1, me, neutral, yard, ents, fx) == Some(
            if k < ents.len() {
                Focus::Ent(k as usize)
            } else {
                Focus::Ent(b as usize)
            },
        ),
{
    let owners = building_owners(ents);
    busiest(owners, me, 8);
    assert forall|p: u8| #[trigger] owned(owners, p) == buildings_of(ents, p) by {
        owning(ents, p);
    }
    assert(busiest_of(owners, me) == Some(q)) by {
        assert(owned(owners, q) > 0);
        if let Some(r) = busiest_of(owners, me) {
            assert(owned(owners, r) == buildings_of(ents, r));
            assert(owned(owners, q) <= owned(owners, r));
            if r < q {
                assert(buildings_of(ents, r) < buildings_of(ents, q));
            } else if q < r {
                assert(owned(owners, q) < owned(owners, r));
            }
        }
    }
    first_found(ents, q, Some(yard), 0, k);
    first_house(ents, q, 0, b);
}

proof fn first_house(ents: Seq<Ent>, owner: u8, from: int, b: int)
    requires
        0 <= from <= b < ents.len(),
        ents[b].owner == owner && ents[b].building,
        forall|j: int| from <= j < b ==> (#[trigger] ents[j]).owner != owner || !ents[j].building,
    ensures
        first_building(ents, owner, from) == Some(b),
    decreases b - from,
{
    if from < b {
        assert(ents[from].owner != owner || !ents[from].building);
        first_house(ents, owner, from + 1, b);
    }
}

/// The anchors of units that stand are kept as they are, and those of units that are gone are dropped, once far more
/// are kept than units stand; before that nothing is dropped.
pub proof fn anchors_of_the_gone_are_dropped(s: Seq<Anchor>, us: Seq<Placed>, id: Eid)
    ensures
        (exists|i: int| 0 <= i < us.len() && (#[trigger] us[i]).id == id) ==> anchor_of(anchored(s, us), id) == anchor_of(
            moved_all(s, us),
            id,
        ),
        moved_all(s, us).len() <= us.len() + 32 ==> anchored(s, us) == moved_all(s, us),
        moved_all(s, us).len() > us.len() + 32 && (forall|i: int| 0 <= i < us.len() ==> (#[trigger] us[i]).id != id) ==> anchor_of(
            anchored(s, us),
            id,
        ) is None,
{
    keeping_anchors(moved_all(s, us), us, id);
    if exists|i: int| 0 <= i < us.len() && (#[trigger] us[i]).id == id {
        assert(stands(us, id));
    }
}

proof fn found_in_parts(a: Seq<Anchor>, x: Anchor, id: Eid)
    ensures
        anchor_of(a.push(x), id) == (match anchor_of(a, id) {
            Some(y) => Some(y),
            None => if x.id == id {
                Some(x)
            } else {
                None
            },
        }),
    decreases a.len(),
{
    let b = a.push(x);
    if a.len() == 0 {
        assert(b.drop_first() =~= Seq::empty());
        assert(b[0] == x);
        assert(anchor_of(b.drop_first(), id) is None);
    } else {
        assert(b[0] == a[0]);
        assert(b.drop_first() =~= a.drop_first().push(x));
        found_in_parts(a.drop_first(), x, id);
    }
}

proof fn keeping_anchors(s: Seq<Anchor>, us: Seq<Placed>, id: Eid)
    ensures
        stands(us, id) ==> anchor_of(standing(s, us), id) == anchor_of(s, id),
        !stands(us, id) ==> anchor_of(standing(s, us), id) is None,
    decreases s.len(),
{
    if s.len() > 0 {
        let head = s.drop_last();
        keeping_anchors(head, us, id);
        assert(s =~= head.push(s.last()));
        found_in_parts(head, s.last(), id);
        found_in_parts(standing(head, us), s.last(), id);
    }
}

} // verus!
