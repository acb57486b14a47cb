//! The persistent world map: a grid of sectors, each its own serverless world.

use crate::beacon::{upper, Beacon, BeaconV};
use crate::crypto::{key_eq, PubKey, ZERO_KEY};
use crate::keeper::{settled_of, settlements};
use crate::session::World;
use crate::state::WorldV;
use crate::text::{chars_of, dec, dec_reads_back, digits_value, parse_uint, push_dec, push_text, string_of, text_of, uint_value};
use vstd::prelude::*;

verus! {

pub const MAP_COLS: i32 = 8;

pub const MAP_ROWS: i32 = 8;

/// The width and the height of a cell on screen.
pub const MAP_CELL: i32 = 62;

/// The gap between two cells.
pub const MAP_GAP: i32 = 6;

// ----------------------------------------------------------------------
// Names
// ----------------------------------------------------------------------

/// What a 32-bit integer parser accepts: an optional sign and digits.
pub open spec fn int_value(s: Seq<char>) -> Option<int> {
    if s.len() > 0 && s[0] == '-' {
        match digits_value(s.drop_first(), 10) {
            Some(n) => if n <= 0x8000_0000 {
                Some(-(n as int))
            } else {
                None
            },
            None => None,
        }
    } else {
        match uint_value(s, 10, 0x7FFF_FFFF) {
            Some(n) => Some(n as int),
            None => None,
        }
    }
}

/// One less, within 32 bits.
pub open spec fn one_less(n: int) -> int {
    if n == -0x8000_0000 {
        0x7FFF_FFFF
    } else {
        n - 1
    }
}

/// The place of a sector such as `B3` on the map: a column letter and a row number.
pub open spec fn sector_in(id: Seq<char>) -> Option<(int, int)> {
    if id.len() == 0 || !('A' <= upper(id[0]) <= 'Z') {
        None
    } else {
        match int_value(id.drop_first()) {
            Some(r) => Some((upper(id[0]) as u32 - 65, one_less(r))),
            None => None,
        }
    }
}

/// Does the place lie on the map?
pub open spec fn on_map(p: (int, int)) -> bool {
    0 <= p.0 < MAP_COLS && 0 <= p.1 < MAP_ROWS
}

fn parse_int(v: &Vec<char>, from: usize) -> (r: Option<i32>)
    requires
        from <= v@.len(),
    ensures
        match int_value(v@.skip(from as int)) {
            Some(n) => r is Some && r->0 == n,
            None => r is None,
        },
{
    let n: usize = v.len();
    let ghost s = v@.skip(from as int);
    if from < n && v[from] == '-' {
        proof {
            assert(v@.subrange(from + 1, n as int) =~= s.drop_first());
        }
        // a second sign is no digit
        if from + 1 < n && v[from + 1] == '+' {
            proof {
                plus_is_no_digit(s.drop_first());
            }
            return None;
        }
        match parse_uint(v, from + 1, n, 10, 0x8000_0000) {
            Some(x) => {
                proof {
                    let t = s.drop_first();
                    assert(t.len() > 0 && t[0] == '+' ==> false);
                }
                Some((0 - x as i64) as i32)
            },
            None => None,
        }
    } else {
        proof {
            assert(v@.subrange(from as int, n as int) =~= s);
        }
        match parse_uint(v, from, n, 10, 0x7FFF_FFFF) {
            Some(x) => Some(x as i32),
            None => None,
        }
    }
}

proof fn plus_is_no_digit(s: Seq<char>)
    requires
        s.len() > 0,
        s[0] == '+',
    ensures
        digits_value(s, 10) is None,
    decreases s.len(),
{
    if s.len() > 1 {
        plus_is_no_digit(s.drop_last());
    } else {
        assert(s.last() == '+');
    }
}

/// The place of a sector on the map.
pub fn parse_sector(id: &str) -> (r: Option<(i32, i32)>)
    ensures
        match sector_in(id@) {
            Some(p) => r is Some && ((r->0).0 as int, (r->0).1 as int) == p,
            None => r is None,
        },
{
    let v: Vec<char> = chars_of(id);
    if v.len() == 0 {
        return None;
    }
    let c: char = v[0];
    let col: i32 = if 'A' <= c && c <= 'Z' {
        c as i32 - 65
    } else if 'a' <= c && c <= 'z' {
        c as i32 - 97
    } else {
        return None;
    };
    proof {
        assert(v@.skip(1) =~= id@.drop_first());
    }
    match parse_int(&v, 1) {
        Some(r) => Some((col, r.wrapping_sub(1))),
        None => None,
    }
}

/// The name of a place on the map.
pub open spec fn sector_name_of(c: int, r: int) -> Seq<char> {
    seq![(65 + c) as char] + dec((r + 1) as nat)
}

/// The name of a place on the map.
pub fn sector_name(c: u8, r: u8) -> (s: String)
    requires
        c < MAP_COLS,
        r < MAP_ROWS,
    ensures
        s@ == sector_name_of(c as int, r as int),
{
    let mut s = String::new();
    s.push((65 + c) as char);
    push_dec(&mut s, r as u64 + 1);
    proof {
        assert(s@ =~= sector_name_of(c as int, r as int));
    }
    s
}

// ----------------------------------------------------------------------
// The map
// ----------------------------------------------------------------------

/// Is this the sector of the map's cell?
pub open spec fn stands_at(id: Seq<char>, c: int, r: int) -> bool {
    sector_in(id) == Some((c, r)) && on_map((c, r))
}

/// The cell of a sector, if it lies on the map.
pub fn cell_of(id: &str) -> (r: Option<(u8, u8)>)
    ensures
        r is Some <==> sector_in(id@) is Some && on_map(sector_in(id@)->0),
        r matches Some(p) ==> sector_in(id@) == Some((p.0 as int, p.1 as int)),
{
    match parse_sector(id) {
        Some((c, r)) => {
            if 0 <= c && c < MAP_COLS && 0 <= r && r < MAP_ROWS {
                Some((c as u8, r as u8))
            } else {
                None
            }
        },
        None => None,
    }
}

/// Which region stands at a cell of the map: the first one, if any.
pub fn region_at(ids: &Vec<String>, c: u8, r: u8) -> (k: Option<usize>)
    ensures
        match k {
            Some(i) => i < ids@.len() && stands_at(ids@[i as int]@, c as int, r as int) && forall|j: int|
                0 <= j < i ==> !stands_at((#[trigger] ids@[j])@, c as int, r as int),
            None => forall|j: int| 0 <= j < ids@.len() ==> !stands_at((#[trigger] ids@[j])@, c as int, r as int),
        },
{
    let mut i: usize = 0;
    while i < ids.len()
        invariant
            i <= ids@.len(),
            forall|j: int| 0 <= j < i ==> !stands_at((#[trigger] ids@[j])@, c as int, r as int),
        decreases ids@.len() - i,
    {
        match cell_of(ids[i].as_str()) {
            Some((x, y)) => {
                if x == c && y == r {
                    return Some(i);
                }
            },
            None => {},
        }
        i = i + 1;
    }
    None
}

/// The cell of the map under a pixel, if there is one: `x` and `y` count from the map's corner.
pub open spec fn cell_at(x: int, y: int) -> Option<(int, int)> {
    let pitch = MAP_CELL + MAP_GAP;
    if 0 <= x && 0 <= y && x / pitch < MAP_COLS && y / pitch < MAP_ROWS && x % pitch < MAP_CELL && y % pitch < MAP_CELL {
        Some((x / pitch, y / pitch))
    } else {
        None
    }
}

/// Is the region on the map's cell under a pixel?
pub open spec fn region_under(id: Seq<char>, x: int, y: int) -> bool {
    cell_at(x, y) matches Some(cell) && stands_at(id, cell.0, cell.1)
}

/// Which region is under a pixel of the map: the first one, if any.
pub fn world_map_pick(ids: &Vec<String>, x: i32, y: i32) -> (k: Option<usize>)
    ensures
        match k {
            Some(i) => i < ids@.len() && region_under(ids@[i as int]@, x as int, y as int) && forall|j: int|
                0 <= j < i ==> !region_under((#[trigger] ids@[j])@, x as int, y as int),
            None => forall|j: int| 0 <= j < ids@.len() ==> !region_under((#[trigger] ids@[j])@, x as int, y as int),
        },
{
    let pitch: i32 = MAP_CELL + MAP_GAP;
    if 0 <= x && 0 <= y && x / pitch < MAP_COLS && y / pitch < MAP_ROWS && x % pitch < MAP_CELL && y % pitch < MAP_CELL {
        region_at(ids, (x / pitch) as u8, (y / pitch) as u8)
    } else {
        None
    }
}

/// One sector on the map: what its beacon tells, or the local region.
#[derive(Debug)]
pub struct RegionInfo {
    pub id: String,
    pub controller: String,
    pub ctrl_key: PubKey,
    pub host: PubKey,
    pub tick: u32,
    pub players: u32,
}

#[verifier::ext_equal]
pub ghost struct RegionV {
    pub id: Seq<char>,
    pub controller: Seq<char>,
    pub ctrl_key: Seq<u8>,
    pub host: Seq<u8>,
    pub tick: u32,
    pub players: u32,
}

impl View for RegionInfo {
    type V = RegionV;

    open spec fn view(&self) -> RegionV {
        RegionV {
            id: self.id@,
            controller: self.controller@,
            ctrl_key: self.ctrl_key@,
            host: self.host@,
            tick: self.tick,
            players: self.players,
        }
    }
}

pub open spec fn region_of(b: BeaconV) -> RegionV {
    RegionV {
        id: b.region,
        controller: b.controller_name,
        ctrl_key: b.controller,
        host: b.host,
        tick: b.tick,
        players: b.players,
    }
}

/// The sectors that beacons tell of, in their order.
pub fn set_regions(beacons: &Vec<Beacon>) -> (r: Vec<RegionInfo>)
    ensures
        r@.len() == beacons@.len(),
        forall|i: int| 0 <= i < r@.len() ==> (#[trigger] r@[i])@ == region_of(beacons@[i]@),
{
    let mut r: Vec<RegionInfo> = Vec::new();
    let mut i: usize = 0;
    while i < beacons.len()
        invariant
            i <= beacons@.len(),
            r@.len() == i,
            forall|j: int| 0 <= j < i ==> (#[trigger] r@[j])@ == region_of(beacons@[j]@),
        decreases beacons@.len() - i,
    {
        let b: Beacon = beacons[i].dup();
        r.push(
            RegionInfo {
                id: b.region,
                controller: b.controller_name,
                ctrl_key: b.controller,
                host: b.host,
                tick: b.tick,
                players: b.players,
            },
        );
        i = i + 1;
    }
    r
}

/// The region that one lives in: the dominant settler controls it, if there is one.
pub open spec fn own_region_of(id: Seq<char>, host: Seq<u8>, w: WorldV, dominant: Option<u8>) -> RegionV {
    let (name, key) = match dominant {
        Some(p) => if p < w.players.len() {
            (w.players[p as int].name, w.players[p as int].key)
        } else {
            (Seq::empty(), ZERO_KEY@)
        },
        None => (Seq::empty(), ZERO_KEY@),
    };
    RegionV {
        id,
        controller: name,
        ctrl_key: key,
        host,
        tick: w.tick,
        players: (settled_of(w, w.players.len()) % 0x1_0000_0000) as u32,
    }
}

/// The region that one lives in.
pub fn own_region(id: &str, host: &PubKey, w: &World, dominant: Option<u8>) -> (r: RegionInfo)
    ensures
        r@ == own_region_of(id@, host@, w@, dominant),
{
    let mut name: String = String::new();
    let mut key: PubKey = ZERO_KEY;
    match dominant {
        Some(p) => {
            if (p as usize) < w.players.len() {
                proof {
                    assert(w@.players[p as int] == w.players@[p as int]@);
                }
                name = w.players[p as usize].name.clone();
                key = w.players[p as usize].key;
            }
        },
        None => {},
    }
    let n: u64 = settlements(w) as u64;
    let r = RegionInfo {
        id: text_of(id),
        controller: name,
        ctrl_key: key,
        host: *host,
        tick: w.tick,
        players: (n % 0x1_0000_0000) as u32,
    };
    proof {
        assert(r@ =~= own_region_of(id@, host@, w@, dominant));
    }
    r
}

/// Who holds a sector.
#[derive(Clone, Copy, Debug, PartialEq, Eq, Structural)]
pub enum Holder {
    Nobody,
    Me,
    /// somebody else, drawn in one of eight colours
    Rival { color: u8 },
}

pub open spec fn holder_of(controller: Seq<u8>, me: Seq<u8>) -> Holder {
    if controller == ZERO_KEY@ {
        Holder::Nobody
    } else if controller == me {
        Holder::Me
    } else {
        Holder::Rival { color: controller[0] % 8 }
    }
}

/// Who holds a sector.
pub fn holder(controller: &PubKey, me: &PubKey) -> (h: Holder)
    ensures
        h == holder_of(controller@, me@),
{
    if key_eq(controller, &ZERO_KEY) {
        Holder::Nobody
    } else if key_eq(controller, me) {
        Holder::Me
    } else {
        Holder::Rival { color: controller[0] % 8 }
    }
}

/// Can one travel to a region? Not where there is nowhere to dial, nor where one is already.
pub fn can_travel(host: &PubKey, me: &PubKey) -> (r: bool)
    ensures
        r == (host@ != ZERO_KEY@ && host@ != me@),
{
    !key_eq(host, &ZERO_KEY) && !key_eq(host, me)
}

/// The prompt under the map for the sector that the mouse is on.
pub open spec fn prompt_of(id: Seq<char>, h: Holder) -> Seq<char> {
    if h == Holder::Me {
        "Sector "@ + id + " - you hold this"@
    } else {
        "Click to travel to Sector "@ + id
    }
}

/// The prompt under the map for the sector that the mouse is on.
pub fn prompt(id: &str, h: Holder) -> (r: String)
    ensures
        r@ == prompt_of(id@, h),
{
    if h == Holder::Me {
        let mut s: String = text_of("Sector ");
        push_text(&mut s, id);
        push_text(&mut s, " - you hold this");
        s
    } else {
        let mut s: String = text_of("Click to travel to Sector ");
        push_text(&mut s, id);
        s
    }
}

/// The controller's name as far as a cell has room for it.
pub fn short_name(name: &str) -> (r: String)
    ensures
        r@ == (if name@.len() <= 8 { name@ } else { name@.take(8) }),
{
    let v: Vec<char> = chars_of(name);
    if v.len() <= 8 {
        let s: String = string_of(&v, 0, v.len());
        proof {
            assert(s@ =~= name@);
        }
        s
    } else {
        let s: String = string_of(&v, 0, 8);
        proof {
            assert(s@ =~= name@.take(8));
        }
        s
    }
}

// ----------------------------------------------------------------------
// Laws
// ----------------------------------------------------------------------

proof fn column_letter(c: int)
    requires
        0 <= c < MAP_COLS,
    ensures
        'A' <= (65 + c) as char <= 'Z',
        upper((65 + c) as char) == (65 + c) as char,
        ((65 + c) as char) as u32 == 65 + c,
{
}

/// Every cell's name leads back to the cell.
pub proof fn cells_read_back(c: int, r: int)
    requires
        on_map((c, r)),
    ensures
        sector_in(sector_name_of(c, r)) == Some((c, r)),
{
    let s = sector_name_of(c, r);
    column_letter(c);
    dec_reads_back((r + 1) as nat);
    assert(s.drop_first() =~= dec((r + 1) as nat));
    assert(s[0] == (65 + c) as char);
    assert('0' <= dec((r + 1) as nat)[0] <= '9');
}

/// The letter's case does not matter: `b3` is `B3`.
pub proof fn sector_case_is_ignored(id: Seq<char>)
    requires
        id.len() > 0,
    ensures
        sector_in(seq![upper(id[0])] + id.drop_first()) == sector_in(id),
{
    let t = seq![upper(id[0])] + id.drop_first();
    assert(t.drop_first() =~= id.drop_first());
    upper_twice(id[0]);
}

proof fn upper_twice(c: char)
    ensures
        upper(upper(c)) == upper(c),
{
}

} // verus!
