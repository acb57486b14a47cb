//! What is drawn, and in which order; what the mouse hits; what the sidebar offers.

use crate::alerts::Pos;
use crate::command::Eid;
use crate::text::{dec, push_dec, push_text, text_of};
use vstd::prelude::*;

verus! {

// ----------------------------------------------------------------------
// The painter's order
// ----------------------------------------------------------------------

/// An entity, as far as drawing reads it.
#[derive(Clone, Copy, Debug, PartialEq, Eq, Structural)]
pub struct Figure {
    pub mine: bool,
    pub building: bool,
    pub unit: bool,
    /// the fog over its tile: 0 never seen, 1 seen once, 2 in sight
    pub fog: u8,
    /// how far to the front it stands
    pub depth: i64,
}

/// Is the figure drawn? Ours always; others in sight, and buildings where they were once seen.
pub open spec fn shown(f: Figure) -> bool {
    f.mine || f.fog == 2 || (f.fog == 1 && f.building)
}

/// Is `a` drawn before `b`? The one farther back; at one depth buildings before units; else the
/// one that comes first in the list.
pub open spec fn drawn_before(fs: Seq<Figure>, a: nat, b: nat) -> bool {
    let (x, y) = (fs[a as int], fs[b as int]);
    x.depth < y.depth || (x.depth == y.depth && ((!x.unit && y.unit) || (x.unit == y.unit && a < b)))
}

/// `s` lists each figure that is drawn, once, back to front.
pub open spec fn painted(fs: Seq<Figure>, s: Seq<nat>) -> bool {
    &&& forall|i: int, j: int| 0 <= i < j < s.len() ==> drawn_before(fs, #[trigger] s[i], #[trigger] s[j])
    &&& forall|i: int| 0 <= i < s.len() ==> (#[trigger] s[i]) < fs.len() && shown(fs[s[i] as int])
    &&& forall|k: nat| k < fs.len() && shown(#[trigger] fs[k as int]) ==> s.contains(k)
}

spec fn back_to_front(fs: Seq<Figure>, s: Seq<nat>) -> bool {
    forall|i: int, j: int| 0 <= i < j < s.len() ==> drawn_before(fs, #[trigger] s[i], #[trigger] s[j])
}

spec fn nats(v: Seq<usize>) -> Seq<nat> {
    Seq::new(v.len(), |i: int| v[i] as nat)
}

fn goes_first(fs: &Vec<Figure>, a: usize, b: usize) -> (r: bool)
    requires
        a < fs@.len(),
        b < fs@.len(),
    ensures
        r == drawn_before(fs@, a as nat, b as nat),
{
    let (x, y): (Figure, Figure) = (fs[a], fs[b]);
    if x.depth != y.depth {
        x.depth < y.depth
    } else if x.unit != y.unit {
        !x.unit
    } else {
        a < b
    }
}

proof fn order_grows(fs: Seq<Figure>, s: Seq<nat>, p: int, k: nat)
    requires
        back_to_front(fs, s),
        0 <= p <= s.len(),
        forall|a: int| 0 <= a < p ==> drawn_before(fs, #[trigger] s[a], k),
        p < s.len() ==> drawn_before(fs, k, s[p]),
    ensures
        back_to_front(fs, s.insert(p, k)),
{
    let t = s.insert(p, k);
    assert forall|a: int| p <= a < s.len() implies drawn_before(fs, k, #[trigger] s[a]) by {
        if a > p {
            assert(drawn_before(fs, s[p], s[a]));
        }
    }
    assert forall|x: int, y: int| 0 <= x < y < t.len() implies drawn_before(fs, #[trigger] t[x], #[trigger] t[y]) by {
        let x0 = if x < p { x } else { x - 1 };
        let y0 = if y < p { y } else { y - 1 };
        if x != p {
            assert(t[x] == s[x0]);
        }
        if y != p {
            assert(t[y] == s[y0]);
        }
    }
}

proof fn contains_grows(s: Seq<nat>, p: int, k: nat)
    requires
        0 <= p <= s.len(),
    ensures
        s.insert(p, k).contains(k),
        forall|x: nat| s.contains(x) ==> #[trigger] s.insert(p, k).contains(x),
{
    let t = s.insert(p, k);
    assert(t[p] == k);
    assert forall|x: nat| s.contains(x) implies #[trigger] t.contains(x) by {
        let a = choose|a: int| 0 <= a < s.len() && s[a] == x;
        let a1 = if a < p { a } else { a + 1 };
        assert(t[a1] == x);
    }
}

fn paint_one(fs: &Vec<Figure>, out: &mut Vec<usize>, k: usize)
    requires
        back_to_front(fs@, nats(old(out)@)),
        k < fs@.len(),
        forall|a: int| 0 <= a < old(out)@.len() ==> (#[trigger] nats(old(out)@)[a]) < k,
    ensures
        exists|p: int|
            0 <= p <= old(out)@.len() && nats(final(out)@) == #[trigger] nats(old(out)@).insert(p, k as nat),
        back_to_front(fs@, nats(final(out)@)),
{
    let ghost s = nats(out@);
    let mut p: usize = 0;
    proof {
        assert forall|a: int| 0 <= a < out@.len() implies (#[trigger] out@[a]) < k by {
            assert(s[a] < k);
        }
    }
    while p < out.len() && goes_first(fs, out[p], k)
        invariant
            p <= out@.len(),
            s == nats(out@),
            k < fs@.len(),
            forall|a: int| 0 <= a < out@.len() ==> (#[trigger] out@[a]) < k,
            forall|a: int| 0 <= a < p ==> drawn_before(fs@, #[trigger] s[a], k as nat),
        decreases out@.len() - p,
    {
        p = p + 1;
    }
    proof {
        if p < out@.len() {
            assert(s[p as int] == out@[p as int]);
        }
        order_grows(fs@, s, p as int, k as nat);
    }
    out.insert(p, k);
    proof {
        assert(nats(out@) =~= s.insert(p as int, k as nat));
    }
}

/// The figures that are drawn, back to front, by their place in the list.
pub fn paint_order(fs: &Vec<Figure>) -> (r: Vec<usize>)
    ensures
        painted(fs@, r@.map_values(|i: usize| i as nat)),
{
    let mut out: Vec<usize> = Vec::new();
    let mut k: usize = 0;
    while k < fs.len()
        invariant
            k <= fs@.len(),
            back_to_front(fs@, nats(out@)),
            forall|a: int| 0 <= a < out@.len() ==> (#[trigger] nats(out@)[a]) < k && shown(fs@[nats(out@)[a] as int]),
            forall|x: nat| x < k && shown(#[trigger] fs@[x as int]) ==> nats(out@).contains(x),
        decreases fs@.len() - k,
    {
        let f: Figure = fs[k];
        if f.mine || f.fog == 2 || (f.fog == 1 && f.building) {
            let ghost s = nats(out@);
            paint_one(fs, &mut out, k);
            proof {
                let p = choose|p: int| 0 <= p <= s.len() && nats(out@) == #[trigger] s.insert(p, k as nat);
                contains_grows(s, p, k as nat);
                let t = nats(out@);
                assert forall|a: int| 0 <= a < t.len() implies (#[trigger] t[a]) < k + 1 && shown(fs@[t[a] as int]) by {
                    if a != p {
                        let a0 = if a < p { a } else { a - 1 };
                        assert(t[a] == s[a0]);
                    }
                }
            }
        }
        k = k + 1;
    }
    proof {
        assert(out@.map_values(|i: usize| i as nat) =~= nats(out@));
    }
    out
}

// ----------------------------------------------------------------------
// The mouse
// ----------------------------------------------------------------------

/// An entity under the mouse.
#[derive(Clone, Copy, Debug, PartialEq, Eq, Structural)]
pub struct Hit {
    pub id: Eid,
    pub depth: i64,
    pub unit: bool,
    pub mine: bool,
}

/// Units are preferred over buildings, and among those ours.
pub open spec fn score_of(h: Hit) -> int {
    (if h.unit {
        2int
    } else {
        0
    }) + (if h.mine {
        1int
    } else {
        0
    })
}

/// Does `a` lie at least as far on top as `b`?
pub open spec fn covers(a: Hit, b: Hit) -> bool {
    a.depth > b.depth || (a.depth == b.depth && score_of(a) >= score_of(b))
}

fn score(h: &Hit) -> (r: u8)
    ensures
        r == score_of(*h),
{
    (if h.unit { 2 } else { 0 }) + (if h.mine { 1 } else { 0 })
}

/// The entity that a click picks: the top-most, and of those alike the last.
pub fn top_hit(hits: &Vec<Hit>) -> (r: Option<Eid>)
    ensures
        r is None <==> hits@.len() == 0,
        r matches Some(id) ==> exists|i: int|
            0 <= i < hits@.len() && (#[trigger] hits@[i]).id == id && (forall|j: int|
                0 <= j < hits@.len() ==> covers(hits@[i], #[trigger] hits@[j])) && (forall|j: int|
                i < j < hits@.len() ==> !covers(#[trigger] hits@[j], hits@[i])),
{
    if hits.len() == 0 {
        return None;
    }
    let mut best: usize = 0;
    let mut i: usize = 1;
    while i < hits.len()
        invariant
            1 <= i <= hits@.len(),
            best < i,
            forall|j: int| 0 <= j < i ==> covers(hits@[best as int], #[trigger] hits@[j]),
            forall|j: int| best < j < i ==> !covers(#[trigger] hits@[j], hits@[best as int]),
        decreases hits@.len() - i,
    {
        let (a, b): (Hit, Hit) = (hits[i], hits[best]);
        if a.depth > b.depth || (a.depth == b.depth && score(&a) >= score(&b)) {
            best = i;
        }
        i = i + 1;
    }
    Some(hits[best].id)
}

// ----------------------------------------------------------------------
// The sidebar
// ----------------------------------------------------------------------

/// A price, or a purse.
#[derive(Clone, Copy, Debug, PartialEq, Eq, Structural)]
pub struct Goods {
    pub credits: u32,
    pub wood: u32,
    pub stone: u32,
    pub essence: u32,
}

pub open spec fn affords(purse: Goods, price: Goods) -> bool {
    purse.credits >= price.credits && purse.wood >= price.wood && purse.stone >= price.stone && purse.essence >= price.essence
}

/// A button of the sidebar.
#[derive(Clone, Copy, Debug, PartialEq, Eq, Structural)]
pub struct Button {
    pub afford: bool,
    pub enabled: bool,
}

/// What a button looks like: it is lit where there is somebody to build, the goods are there,
/// and the technology.
pub fn button(purse: Goods, price: Goods, builder: bool, tech: bool) -> (b: Button)
    ensures
        b.afford == affords(purse, price),
        b.enabled == (builder && b.afford && tech),
{
    let afford: bool = purse.credits >= price.credits && purse.wood >= price.wood && purse.stone >= price.stone && purse.essence
        >= price.essence;
    Button { afford, enabled: builder && afford && tech }
}

pub open spec fn part(name: Seq<char>, n: u32) -> Seq<char> {
    if n > 0 {
        name + dec(n as nat)
    } else {
        Seq::empty()
    }
}

/// The price in words: only what is asked.
pub open spec fn price_of(p: Goods) -> Seq<char> {
    "$"@ + dec(p.credits as nat) + part("   Wood "@, p.wood) + part("   Stone "@, p.stone) + part("   Essence "@, p.essence)
}

fn push_part(s: &mut String, name: &str, n: u32)
    ensures
        final(s)@ == old(s)@ + part(name@, n),
{
    if n > 0 {
        push_text(s, name);
        push_dec(s, n as u64);
    }
    proof {
        assert(s@ =~= old(s)@ + part(name@, n));
    }
}

/// The price in words.
pub fn price_text(p: Goods) -> (r: String)
    ensures
        r@ == price_of(p),
{
    let mut s: String = text_of("$");
    push_dec(&mut s, p.credits as u64);
    push_part(&mut s, "   Wood ", p.wood);
    push_part(&mut s, "   Stone ", p.stone);
    push_part(&mut s, "   Essence ", p.essence);
    s
}

/// How many orders for a kind stand in a building's queue.
pub open spec fn queued(queue: Seq<u8>, kind: u8) -> nat
    decreases queue.len(),
{
    if queue.len() == 0 {
        0
    } else {
        queued(queue.drop_last(), kind) + if queue.last() == kind {
            1nat
        } else {
            0nat
        }
    }
}

/// The badge on a unit's button: how many are queued, and whether one is under way.
pub fn badge(queue: &Vec<u8>, kind: u8) -> (r: (usize, bool))
    ensures
        r.0 == queued(queue@, kind),
        r.1 == (queue@.len() > 0 && queue@[0] == kind),
{
    let mut n: usize = 0;
    let mut i: usize = 0;
    while i < queue.len()
        invariant
            i <= queue@.len(),
            n <= i,
            n == queued(queue@.take(i as int), kind),
        decreases queue@.len() - i,
    {
        proof {
            assert(queue@.take(i + 1).drop_last() =~= queue@.take(i as int));
        }
        if queue[i] == kind {
            n = n + 1;
        }
        i = i + 1;
    }
    proof {
        assert(queue@.take(i as int) =~= queue@);
    }
    (n, queue.len() > 0 && queue[0] == kind)
}

/// The name of what a tile yields.
pub fn resource_name(kind: u8) -> (r: &'static str)
    ensures
        r@ == (if kind == 1 {
            "Wood"@
        } else if kind == 2 {
            "Stone"@
        } else {
            "Credits"@
        }),
{
    match kind {
        1 => "Wood",
        2 => "Stone",
        _ => "Credits",
    }
}

/// The label over a resource: what it yields, and how much is left.
pub fn resource_label(kind: u8, left: u32) -> (r: String)
    ensures
        r@ == (if kind == 1 {
            "Wood"@
        } else if kind == 2 {
            "Stone"@
        } else {
            "Credits"@
        }) + "  ·  "@ + dec(left as nat) + " left"@,
{
    let mut s: String = text_of(resource_name(kind));
    push_text(&mut s, "  ·  ");
    push_dec(&mut s, left as u64);
    push_text(&mut s, " left");
    s
}

// ----------------------------------------------------------------------
// Danger
// ----------------------------------------------------------------------

/// A tile with something on it.
#[derive(Clone, Copy, Debug, PartialEq, Eq, Structural)]
pub struct Spotted {
    pub x: i32,
    pub y: i32,
}

pub open spec fn sum_x(s: Seq<Spotted>) -> int
    decreases s.len(),
{
    if s.len() == 0 {
        0
    } else {
        sum_x(s.drop_last()) + s.last().x
    }
}

pub open spec fn sum_y(s: Seq<Spotted>) -> int
    decreases s.len(),
{
    if s.len() == 0 {
        0
    } else {
        sum_y(s.drop_last()) + s.last().y
    }
}

/// A quotient, rounded towards zero.
pub open spec fn toward_zero(a: int, n: int) -> int {
    if a >= 0 {
        a / n
    } else {
        -((-a) / n)
    }
}

/// How far around the middle of our territory monsters count as near, in tiles.
pub const NEAR: i64 = 34;

pub open spec fn is_near(m: Spotted, cx: int, cy: int) -> bool {
    -NEAR <= m.x - cx <= NEAR && -NEAR <= m.y - cy <= NEAR
}

pub open spec fn near_count(ms: Seq<Spotted>, cx: int, cy: int) -> nat
    decreases ms.len(),
{
    if ms.len() == 0 {
        0
    } else {
        near_count(ms.drop_last(), cx, cy) + if is_near(ms.last(), cx, cy) {
            1nat
        } else {
            0nat
        }
    }
}

fn middle(buildings: &Vec<Spotted>) -> (r: (i128, i128))
    requires
        buildings@.len() > 0,
    ensures
        r.0 == toward_zero(sum_x(buildings@), buildings@.len() as int),
        r.1 == toward_zero(sum_y(buildings@), buildings@.len() as int),
{
    let mut sx: i128 = 0;
    let mut sy: i128 = 0;
    let mut i: usize = 0;
    while i < buildings.len()
        invariant
            i <= buildings@.len(),
            sx == sum_x(buildings@.take(i as int)),
            sy == sum_y(buildings@.take(i as int)),
            -0x8000_0000 * i <= sx <= 0x8000_0000 * i,
            -0x8000_0000 * i <= sy <= 0x8000_0000 * i,
        decreases buildings@.len() - i,
    {
        proof {
            assert(buildings@.take(i + 1).drop_last() =~= buildings@.take(i as int));
        }
        sx = sx + buildings[i].x as i128;
        sy = sy + buildings[i].y as i128;
        i = i + 1;
    }
    proof {
        assert(buildings@.take(i as int) =~= buildings@);
    }
    let n: u128 = buildings.len() as u128;
    (quotient(sx, n), quotient(sy, n))
}

fn quotient(a: i128, n: u128) -> (r: i128)
    requires
        0 < n,
        -0x8000_0000_0000_0000_0000_0000 <= a <= 0x8000_0000_0000_0000_0000_0000,
    ensures
        r == toward_zero(a as int, n as int),
{
    if a >= 0 {
        let q: u128 = a as u128 / n;
        proof {
            shrinks(a as int, n as int);
        }
        q as i128
    } else {
        let q: u128 = (0 - a) as u128 / n;
        proof {
            shrinks(-(a as int), n as int);
        }
        0 - q as i128
    }
}

proof fn shrinks(a: int, n: int)
    requires
        a >= 0,
        n > 0,
    ensures
        0 <= a / n <= a,
{
    vstd::arithmetic::div_mod::lemma_div_pos_is_pos(a, n);
    vstd::arithmetic::div_mod::lemma_div_is_ordered_by_denominator(a, 1, n);
}

/// How many monsters mass near the middle of our buildings; none where we have no buildings.
pub fn monsters_near(buildings: &Vec<Spotted>, monsters: &Vec<Spotted>) -> (n: usize)
    ensures
        n == (if buildings@.len() == 0 {
            0
        } else {
            near_count(
                monsters@,
                toward_zero(sum_x(buildings@), buildings@.len() as int),
                toward_zero(sum_y(buildings@), buildings@.len() as int),
            )
        }),
{
    if buildings.len() == 0 {
        return 0;
    }
    let (cx, cy): (i128, i128) = middle(buildings);
    let mut n: usize = 0;
    let mut i: usize = 0;
    while i < monsters.len()
        invariant
            i <= monsters@.len(),
            n <= i,
            n == near_count(monsters@.take(i as int), cx as int, cy as int),
        decreases monsters@.len() - i,
    {
        proof {
            assert(monsters@.take(i + 1).drop_last() =~= monsters@.take(i as int));
        }
        if close(monsters[i].x, cx) && close(monsters[i].y, cy) {
            n = n + 1;
        }
        i = i + 1;
    }
    proof {
        assert(monsters@.take(i as int) =~= monsters@);
    }
    n
}

fn close(x: i32, c: i128) -> (r: bool)
    ensures
        r == (-NEAR <= x - c <= NEAR),
{
    c <= x as i128 + NEAR as i128 && x as i128 - NEAR as i128 <= c
}

// ----------------------------------------------------------------------
// Service
// ----------------------------------------------------------------------

/// The square of the distance between two positions.
pub open spec fn distance2(a: Pos, b: Pos) -> int {
    (a.x - b.x) * (a.x - b.x) + (a.y - b.y) * (a.y - b.y)
}

/// The first of the places within reach.
pub open spec fn within_reach(places: Seq<Pos>, at: Pos, r2: int) -> Option<Pos>
    decreases places.len(),
{
    if places.len() == 0 {
        None
    } else if distance2(at, places[0]) <= r2 {
        Some(places[0])
    } else {
        within_reach(places.drop_first(), at, r2)
    }
}

/// Who services a hurt unit: vehicles a depot; infantry a med bay, or else a house.
pub open spec fn helper_of(
    infantry: bool,
    at: Pos,
    depots: Seq<Pos>,
    bays: Seq<Pos>,
    houses: Seq<Pos>,
    near2: int,
    far2: int,
) -> Option<Pos> {
    if !infantry {
        within_reach(depots, at, near2)
    } else {
        match within_reach(bays, at, far2) {
            Some(b) => Some(b),
            None => within_reach(houses, at, near2),
        }
    }
}

fn square(a: i32, b: i32) -> (r: i128)
    ensures
        r == (a - b) * (a - b),
        0 <= r <= 0x1_0000_0000_0000_0000,
{
    let d: i128 = a as i128 - b as i128;
    proof {
        let x = d as int;
        assert(0 <= x * x <= 0x1_0000_0000_0000_0000) by (nonlinear_arith)
            requires
                -0x1_0000_0000 <= x <= 0x1_0000_0000,
        ;
    }
    d * d
}

fn reach(places: &Vec<Pos>, at: Pos, r2: i64) -> (r: Option<Pos>)
    ensures
        r == within_reach(places@, at, r2 as int),
{
    let mut i: usize = 0;
    proof {
        assert(places@.skip(0) =~= places@);
    }
    while i < places.len()
        invariant
            i <= places@.len(),
            within_reach(places@.skip(i as int), at, r2 as int) == within_reach(places@, at, r2 as int),
        decreases places@.len() - i,
    {
        proof {
            assert(places@.skip(i as int).drop_first() =~= places@.skip(i + 1));
        }
        if square(at.x, places[i].x) + square(at.y, places[i].y) <= r2 as i128 {
            return Some(places[i]);
        }
        i = i + 1;
    }
    None
}

/// Who services a hurt unit, if anybody is near: the distances are squared.
pub fn helper(
    infantry: bool,
    at: Pos,
    depots: &Vec<Pos>,
    bays: &Vec<Pos>,
    houses: &Vec<Pos>,
    near2: i64,
    far2: i64,
) -> (r: Option<Pos>)
    ensures
        r == helper_of(infantry, at, depots@, bays@, houses@, near2 as int, far2 as int),
{
    if !infantry {
        reach(depots, at, near2)
    } else {
        match reach(bays, at, far2) {
            Some(b) => Some(b),
            None => reach(houses, at, near2),
        }
    }
}

// ----------------------------------------------------------------------
// The demo reel
// ----------------------------------------------------------------------

/// How many of the buildings a player owns.
pub open spec fn owned(owners: Seq<u8>, pid: u8) -> nat
    decreases owners.len(),
{
    if owners.len() == 0 {
        0
    } else {
        owned(owners.drop_last(), pid) + if owners.last() == pid {
            1nat
        } else {
            0nat
        }
    }
}

fn count_owned(owners: &Vec<u8>, pid: u8) -> (n: usize)
    ensures
        n == owned(owners@, pid),
{
    let mut n: usize = 0;
    let mut i: usize = 0;
    while i < owners.len()
        invariant
            i <= owners@.len(),
            n <= i,
            n == owned(owners@.take(i as int), pid),
        decreases owners@.len() - i,
    {
        proof {
            assert(owners@.take(i + 1).drop_last() =~= owners@.take(i as int));
        }
        if owners[i] == pid {
            n = n + 1;
        }
        i = i + 1;
    }
    proof {
        assert(owners@.take(i as int) =~= owners@);
    }
    n
}

/// The rival with the most buildings among the players before `n`, of those alike the first.
pub open spec fn busiest_before(owners: Seq<u8>, me: u8, n: nat) -> Option<u8>
    decreases n,
{
    if n == 0 {
        None
    } else {
        let p = (n - 1) as u8;
        let best = busiest_before(owners, me, (n - 1) as nat);
        if p != me && owned(owners, p) > 0 && (best is None || owned(owners, p) > owned(owners, best->0)) {
            Some(p)
        } else {
            best
        }
    }
}

pub open spec fn busiest_of(owners: Seq<u8>, me: u8) -> Option<u8> {
    busiest_before(owners, me, 8)
}

/// The rival with the most buildings, of those alike the first; nobody if no rival has any.
/// `owners` are the owners of the buildings on the field, of eight players.
pub fn busiest_rival(owners: &Vec<u8>, me: u8) -> (r: Option<u8>)
    ensures
        r == busiest_of(owners@, me),
        r is None <==> forall|p: u8| p < 8 && p != me ==> #[trigger] owned(owners@, p) == 0,
        r matches Some(q) ==> q < 8 && q != me && owned(owners@, q) > 0 && (forall|p: u8|
            p < 8 && p != me ==> #[trigger] owned(owners@, p) <= owned(owners@, q)) && (forall|p: u8|
            p < q && p != me ==> #[trigger] owned(owners@, p) < owned(owners@, q)),
{
    let mut best: Option<(u8, usize)> = None;
    let mut p: u8 = 0;
    while p < 8
        invariant
            p <= 8,
            busiest_before(owners@, me, p as nat) == (match best {
                Some((q, _)) => Some(q),
                None => None,
            }),
            match best {
                None => forall|x: u8| x < p && x != me ==> #[trigger] owned(owners@, x) == 0,
                Some((q, n)) => q < p && q != me && n == owned(owners@, q) && n > 0 && (forall|x: u8|
                    x < p && x != me ==> #[trigger] owned(owners@, x) <= n) && (forall|x: u8|
                    x < q && x != me ==> #[trigger] owned(owners@, x) < n),
            },
        decreases 8 - p,
    {
        if p != me {
            let n: usize = count_owned(owners, p);
            let better: bool = match best {
                Some((_, m)) => n > m,
                None => true,
            };
            if n > 0 && better {
                best = Some((p, n));
            }
        }
        p = p + 1;
    }
    match best {
        Some((q, _)) => Some(q),
        None => None,
    }
}

// ----------------------------------------------------------------------
// Laws
// ----------------------------------------------------------------------

/// There is one way to paint a scene: two paintings of it are the same.
pub proof fn one_painting(fs: Seq<Figure>, s: Seq<nat>, t: Seq<nat>)
    requires
        painted(fs, s),
        painted(fs, t),
    ensures
        s == t,
    decreases s.len(),
{
    if s.len() == 0 {
        if t.len() > 0 {
            assert(shown(fs[t[0] as int]));
            assert(s.contains(t[0]));
        }
        assert(s =~= t);
    } else {
        assert(shown(fs[s[0] as int]));
        assert(t.contains(s[0]));
        same_from(fs, s, t, 0);
        assert(s =~= t);
    }
}

proof fn same_from(fs: Seq<Figure>, s: Seq<nat>, t: Seq<nat>, k: int)
    requires
        painted(fs, s),
        painted(fs, t),
        0 <= k <= s.len(),
        k <= t.len(),
        forall|i: int| 0 <= i < k ==> s[i] == t[i],
    ensures
        s.len() == t.len(),
        forall|i: int| 0 <= i < s.len() ==> s[i] == t[i],
    decreases s.len() - k,
{
    if k < s.len() && k < t.len() {
        let (a, b) = (s[k], t[k]);
        assert(shown(fs[a as int]) && shown(fs[b as int]));
        assert(t.contains(a));
        assert(s.contains(b));
        let i = choose|i: int| 0 <= i < t.len() && t[i] == a;
        let j = choose|j: int| 0 <= j < s.len() && s[j] == b;
        if i < k {
            assert(s[i] == t[i]);
            assert(drawn_before(fs, s[i], s[k]));
        }
        if j < k {
            assert(s[j] == t[j]);
            assert(drawn_before(fs, t[j], t[k]));
        }
        if a != b {
            assert(i > k && j > k);
            assert(drawn_before(fs, t[k], t[i]));
            assert(drawn_before(fs, s[k], s[j]));
        }
        same_from(fs, s, t, k + 1);
    } else if k < s.len() {
        assert(shown(fs[s[k] as int]));
        assert(t.contains(s[k]));
        let i = choose|i: int| 0 <= i < t.len() && t[i] == s[k];
        assert(s[i] == t[i]);
        assert(drawn_before(fs, s[i], s[k]));
    } else if k < t.len() {
        assert(shown(fs[t[k] as int]));
        assert(s.contains(t[k]));
        let i = choose|i: int| 0 <= i < s.len() && s[i] == t[k];
        assert(s[i] == t[i]);
        assert(drawn_before(fs, t[i], t[k]));
    }
}

} // verus!
