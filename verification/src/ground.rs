//! The ground: what is seen of it, where it changes, and the small map of it.

use crate::command::Tp;
use vstd::arithmetic::div_mod::{lemma_fundamental_div_mod, lemma_fundamental_div_mod_converse};
use vstd::prelude::*;

verus! {

#[derive(Clone, Copy, Debug, PartialEq, Eq, Structural)]
pub enum Terrain {
    Grass,
    Dirt,
    Road,
    Water,
    Bridge,
    Rock,
    Tree,
    Sand,
    Snow,
    Ice,
    Marsh,
    Mountain,
    Lava,
    Ash,
    Obsidian,
}

// ----------------------------------------------------------------------
// Seams and shores
// ----------------------------------------------------------------------

/// What belongs together: no seam runs between two terrains of one class.
pub open spec fn class_of(t: Terrain) -> int {
    match t {
        Terrain::Grass | Terrain::Tree => 0,
        Terrain::Road => 1,
        Terrain::Dirt => 2,
        Terrain::Rock => 3,
        _ => 4,
    }
}

fn class(t: Terrain) -> (c: u8)
    ensures
        c == class_of(t),
{
    match t {
        Terrain::Grass | Terrain::Tree => 0,
        Terrain::Road => 1,
        Terrain::Dirt => 2,
        Terrain::Rock => 3,
        _ => 4,
    }
}

/// The four edges of a tile: towards the tile above, to the right, below and to the left.
#[derive(Clone, Copy, Debug, PartialEq, Eq, Structural)]
pub struct Edges {
    pub up: bool,
    pub right: bool,
    pub down: bool,
    pub left: bool,
}

/// The edges that are accented: only boundaries between different classes of terrain, so open
/// fields stay seamless.
pub fn tile_edges(here: Terrain, up: Terrain, right: Terrain, down: Terrain, left: Terrain) -> (e: Edges)
    ensures
        e.up == (class_of(up) != class_of(here)),
        e.right == (class_of(right) != class_of(here)),
        e.down == (class_of(down) != class_of(here)),
        e.left == (class_of(left) != class_of(here)),
{
    let c: u8 = class(here);
    Edges { up: class(up) != c, right: class(right) != c, down: class(down) != c, left: class(left) != c }
}

/// The edges of a water tile where land begins.
pub fn shoreline(up: Terrain, right: Terrain, down: Terrain, left: Terrain) -> (e: Edges)
    ensures
        e.up == !(up is Water),
        e.right == !(right is Water),
        e.down == !(down is Water),
        e.left == !(left is Water),
{
    Edges {
        up: up != Terrain::Water,
        right: right != Terrain::Water,
        down: down != Terrain::Water,
        left: left != Terrain::Water,
    }
}

// ----------------------------------------------------------------------
// The field
// ----------------------------------------------------------------------

/// A tile never seen.
pub const UNSEEN: u8 = 0;

/// A tile that was seen once.
pub const EXPLORED: u8 = 1;

/// A tile in sight.
pub const IN_SIGHT: u8 = 2;

#[derive(Clone, Copy, Debug, PartialEq, Eq, Structural)]
pub struct Tile {
    pub terrain: Terrain,
    /// what is left of its ore, wood or stone
    pub ore: u16,
    /// what the tile yields, if anything
    pub yields: Option<u8>,
    /// how much of it we see
    pub fog: u8,
}

/// The ground as one player knows it, row by row.
#[derive(Debug)]
pub struct Field {
    pub w: i32,
    pub h: i32,
    pub tiles: Vec<Tile>,
    /// a player who has not settled sees everything
    pub joined: bool,
}

impl Field {
    /// There is a tile for every place.
    pub open spec fn wf(self) -> bool {
        self.w >= 0 && self.h >= 0 && self.tiles@.len() == self.w * self.h
    }

    pub open spec fn inside(self, x: int, y: int) -> bool {
        0 <= x < self.w && 0 <= y < self.h
    }

    pub open spec fn tile_at(self, x: int, y: int) -> Tile {
        self.tiles@[y * self.w + x]
    }
}

/// How much of a tile is seen: for settlers it is what their fog says, and whatever lies outside
/// is in sight.
pub open spec fn visible_of(f: Field, x: int, y: int) -> u8 {
    if f.joined && f.inside(x, y) {
        f.tile_at(x, y).fog
    } else {
        IN_SIGHT
    }
}

proof fn place_bounds(x: int, y: int, w: int, h: int)
    requires
        0 <= x < w,
        0 <= y < h,
    ensures
        0 <= y * w + x < w * h,
        (y * w + x) / w == y,
        (y * w + x) % w == x,
{
    assert(y * w + x < w * h && y * w >= 0) by (nonlinear_arith)
        requires
            0 <= x < w,
            0 <= y < h,
    ;
    assert(y * w == w * y) by (nonlinear_arith);
    lemma_fundamental_div_mod_converse(y * w + x, w, y, x);
}

proof fn place_of_index(k: int, w: int, h: int)
    requires
        0 <= w,
        0 <= h,
        0 <= k < w * h,
    ensures
        0 < w,
        0 <= k % w < w,
        0 <= k / w < h,
        k == (k / w) * w + k % w,
{
    assert(w != 0) by (nonlinear_arith)
        requires
            0 <= k < w * h,
    ;
    lemma_fundamental_div_mod(k, w);
    assert(w * (k / w) == (k / w) * w) by (nonlinear_arith);
    assert(0 <= k / w < h) by (nonlinear_arith)
        requires
            0 < w,
            0 <= k < w * h,
            k == (k / w) * w + k % w,
            0 <= k % w < w,
    ;
}

fn index(f: &Field, x: i32, y: i32) -> (k: usize)
    requires
        f.wf(),
        f.inside(x as int, y as int),
    ensures
        k == y * f.w + x,
        k < f.tiles@.len(),
{
    let n: usize = f.tiles.len();
    proof {
        place_bounds(x as int, y as int, f.w as int, f.h as int);
        assert(y * f.w >= 0) by (nonlinear_arith)
            requires
                y >= 0,
                f.w >= 0,
        ;
    }
    (y as usize) * (f.w as usize) + x as usize
}

/// How much of a tile is seen.
pub fn tile_visible(f: &Field, t: Tp) -> (v: u8)
    requires
        f.wf(),
    ensures
        v == visible_of(*f, t.x as int, t.y as int),
{
    if f.joined && t.x >= 0 && t.y >= 0 && t.x < f.w && t.y < f.h {
        f.tiles[index(f, t.x, t.y)].fog
    } else {
        IN_SIGHT
    }
}

// ----------------------------------------------------------------------
// The tiles on screen
// ----------------------------------------------------------------------

/// A rectangle of tiles: from `x0`, `y0` up to, but without, `x1`, `y1`.
#[derive(Clone, Copy, Debug, PartialEq, Eq, Structural)]
pub struct Span {
    pub x0: i32,
    pub y0: i32,
    pub x1: i32,
    pub y1: i32,
}

pub open spec fn at_least(a: int, b: int) -> int {
    if a < b {
        b
    } else {
        a
    }
}

pub open spec fn at_most(a: int, b: int) -> int {
    if a > b {
        b
    } else {
        a
    }
}

/// The tiles worth drawing where the corners of the view lie between `lo` and `hi`: with a margin
/// before and after (tall features poke in from off-screen), and none outside the field.
pub fn tiles_in_view(w: i32, h: i32, lo: Tp, hi: Tp, before: u8, right: u8, below: u8) -> (s: Span)
    requires
        w >= 0,
        h >= 0,
    ensures
        s.x0 == at_least(lo.x - before, 0),
        s.y0 == at_least(lo.y - before, 0),
        s.x1 == at_most(hi.x + right, w as int),
        s.y1 == at_most(hi.y + below, h as int),
{
    let x0: i64 = lo.x as i64 - before as i64;
    let y0: i64 = lo.y as i64 - before as i64;
    let x1: i64 = hi.x as i64 + right as i64;
    let y1: i64 = hi.y as i64 + below as i64;
    Span {
        x0: if x0 < 0 {
            0
        } else {
            x0 as i32
        },
        y0: if y0 < 0 {
            0
        } else {
            y0 as i32
        },
        x1: if x1 > w as i64 {
            w
        } else {
            x1 as i32
        },
        y1: if y1 > h as i64 {
            h
        } else {
            y1 as i32
        },
    }
}

pub open spec fn width(s: Span) -> int {
    at_least(s.x1 - s.x0, 0)
}

pub open spec fn height(s: Span) -> int {
    at_least(s.y1 - s.y0, 0)
}

/// The tiles of a rectangle, row by row: for this projection that paints what is in front last.
pub open spec fn tiles_of(s: Span) -> Seq<Tp> {
    Seq::new(
        (width(s) * height(s)) as nat,
        |k: int| (Tp { x: (s.x0 + k % width(s)) as i32, y: (s.y0 + k / width(s)) as i32 }),
    )
}

/// The tiles of a rectangle, row by row.
pub fn tiles(s: Span) -> (r: Vec<Tp>)
    ensures
        r@ == tiles_of(s),
{
    let mut r: Vec<Tp> = Vec::new();
    if s.x0 >= s.x1 || s.y0 >= s.y1 {
        proof {
            assert(width(s) * height(s) == 0) by (nonlinear_arith)
                requires
                    width(s) == 0 || height(s) == 0,
            ;
            assert(r@ =~= tiles_of(s));
        }
        return r;
    }
    let mut y: i32 = s.y0;
    let ghost (w, h) = (width(s), height(s));
    while y < s.y1
        invariant
            s.x0 < s.x1,
            s.y0 <= y <= s.y1,
            s.y0 < s.y1,
            w == s.x1 - s.x0,
            h == s.y1 - s.y0,
            w == width(s),
            h == height(s),
            r@.len() == (y - s.y0) * w,
            r@.len() <= w * h,
            r@ == tiles_of(s).take(r@.len() as int),
        decreases s.y1 - y,
    {
        let mut x: i32 = s.x0;
        while x < s.x1
            invariant
                s.x0 <= x <= s.x1,
                s.y0 <= y < s.y1,
                w == s.x1 - s.x0,
                h == s.y1 - s.y0,
                w == width(s),
                h == height(s),
                r@.len() == (y - s.y0) * w + (x - s.x0),
                r@.len() <= w * h,
                r@ == tiles_of(s).take(r@.len() as int),
            decreases s.x1 - x,
        {
            proof {
                place_bounds(x - s.x0, y - s.y0, w, h);
            }
            let ghost before = r@;
            r.push(Tp { x, y });
            proof {
                assert(r@ =~= tiles_of(s).take(r@.len() as int)) by {
                    assert forall|k: int| 0 <= k < r@.len() implies r@[k] == tiles_of(s)[k] by {
                        if k < before.len() {
                            assert(r@[k] == before[k]);
                        }
                    }
                }
            }
            x = x + 1;
        }
        proof {
            assert((y - s.y0) * w + w == (y + 1 - s.y0) * w) by (nonlinear_arith);
            assert((y + 1 - s.y0) * w <= w * h) by (nonlinear_arith)
                requires
                    y + 1 - s.y0 <= h,
                    0 <= w,
            ;
        }
        y = y + 1;
    }
    proof {
        assert((y - s.y0) * w == w * h) by (nonlinear_arith)
            requires
                y - s.y0 == h,
        ;
        assert(r@ =~= tiles_of(s));
    }
    r
}

/// What covers a tile: nothing where it is in sight, the dark where it was never seen, and a
/// veil else.
pub fn veil(f: &Field, t: Tp) -> (r: Option<bool>)
    requires
        f.wf(),
    ensures
        r == (if visible_of(*f, t.x as int, t.y as int) == IN_SIGHT {
            None
        } else {
            Some(visible_of(*f, t.x as int, t.y as int) == UNSEEN)
        }),
{
    let v: u8 = tile_visible(f, t);
    if v == IN_SIGHT {
        None
    } else {
        Some(v == UNSEEN)
    }
}

/// The resource to point out on a tile: what is not depleted and was seen at least once.
pub open spec fn hint_of(f: Field, x: int, y: int) -> Option<u8> {
    if f.inside(x, y) && f.tile_at(x, y).ore > 0 && visible_of(f, x, y) != UNSEEN {
        f.tile_at(x, y).yields
    } else {
        None
    }
}

/// The resource to point out on a tile.
pub fn resource_hint(f: &Field, t: Tp) -> (r: Option<u8>)
    requires
        f.wf(),
    ensures
        r == hint_of(*f, t.x as int, t.y as int),
{
    if t.x >= 0 && t.y >= 0 && t.x < f.w && t.y < f.h {
        let here: Tile = f.tiles[index(f, t.x, t.y)];
        if here.ore > 0 && tile_visible(f, t) != UNSEEN {
            return here.yields;
        }
    }
    None
}

/// How many crystals show on a tile with ore.
pub fn crystals(ore: u16) -> (n: u16)
    ensures
        n == at_most(2 + ore / 110, 8),
{
    let n: u16 = 2 + ore / 110;
    if n > 8 {
        8
    } else {
        n
    }
}

// ----------------------------------------------------------------------
// The small map
// ----------------------------------------------------------------------

/// What a pixel of the small map shows.
#[derive(Clone, Copy, Debug, PartialEq, Eq, Structural)]
pub enum Pixel {
    Unseen,
    /// `dim` where the tile is out of sight
    Ground { terrain: Terrain, dim: bool },
    Ore { dim: bool },
    Player { pid: u8 },
}

/// Something that stands on the field, with its foot print.
#[derive(Clone, Copy, Debug, PartialEq, Eq, Structural)]
pub struct Dot {
    pub owner: u8,
    pub at: Tp,
    pub fw: i32,
    pub fh: i32,
}

pub open spec fn ground_pixel(t: Tile, joined: bool) -> Pixel {
    let v = if joined {
        t.fog
    } else {
        IN_SIGHT
    };
    if v == UNSEEN {
        Pixel::Unseen
    } else if t.ore > 0 {
        Pixel::Ore { dim: v == EXPLORED }
    } else {
        Pixel::Ground { terrain: t.terrain, dim: v == EXPLORED }
    }
}

/// Does it stand on the tile? Whatever it is, it fills a tile at least.
pub open spec fn stands_on(d: Dot, x: int, y: int) -> bool {
    d.at.x <= x < d.at.x + at_least(d.fw as int, 1) && d.at.y <= y < d.at.y + at_least(d.fh as int, 1)
}

/// Our own are on the map always, the others while they are in sight.
pub open spec fn on_map(f: Field, d: Dot, me: u8) -> bool {
    visible_of(f, d.at.x as int, d.at.y as int) == IN_SIGHT || d.owner == me
}

/// The pixel at a tile: who stands on it, the last of them if there are several, or the ground.
pub open spec fn pixel_of(f: Field, ds: Seq<Dot>, me: u8, x: int, y: int) -> Pixel
    decreases ds.len(),
{
    if ds.len() == 0 {
        ground_pixel(f.tile_at(x, y), f.joined)
    } else if on_map(f, ds.last(), me) && stands_on(ds.last(), x, y) {
        Pixel::Player { pid: ds.last().owner }
    } else {
        pixel_of(f, ds.drop_last(), me, x, y)
    }
}

/// The small map, row by row.
pub open spec fn map_of(f: Field, ds: Seq<Dot>, me: u8) -> Seq<Pixel> {
    Seq::new((f.w * f.h) as nat, |k: int| pixel_of(f, ds, me, k % f.w as int, k / f.w as int))
}

pub open spec fn painted(px: Seq<Pixel>, w: int, d: Dot) -> Seq<Pixel> {
    Seq::new(
        px.len(),
        |k: int|
            if stands_on(d, k % w, k / w) {
                Pixel::Player { pid: d.owner }
            } else {
                px[k]
            },
    )
}

fn paint(px: &mut Vec<Pixel>, f: &Field, d: &Dot)
    requires
        f.wf(),
        old(px)@.len() == f.tiles@.len(),
    ensures
        final(px)@ == painted(old(px)@, f.w as int, *d),
{
    let ghost (w, h) = (f.w as int, f.h as int);
    let ghost before = px@;
    let fw: i64 = if d.fw > 1 {
        d.fw as i64
    } else {
        1
    };
    let fh: i64 = if d.fh > 1 {
        d.fh as i64
    } else {
        1
    };
    let s: Span = Span {
        x0: if d.at.x < 0 {
            0
        } else {
            d.at.x
        },
        y0: if d.at.y < 0 {
            0
        } else {
            d.at.y
        },
        x1: if d.at.x as i64 + fw > f.w as i64 {
            f.w
        } else {
            (d.at.x as i64 + fw) as i32
        },
        y1: if d.at.y as i64 + fh > f.h as i64 {
            f.h
        } else {
            (d.at.y as i64 + fh) as i32
        },
    };
    proof {
        assert forall|x: int, y: int| f.inside(x, y) implies (stands_on(*d, x, y) <==> s.x0 <= x < s.x1 && s.y0 <= y < s.y1) by {}
    }
    let mut y: i32 = s.y0;
    while y < s.y1
        invariant
            f.wf(),
            w == f.w,
            h == f.h,
            px@.len() == before.len(),
            before.len() == w * h,
            0 <= s.x0,
            s.x1 <= w,
            0 <= s.y0,
            s.y1 <= h,
            s.y0 <= y,
            y <= s.y1 || y == s.y0,
            forall|k: int|
                0 <= k < px@.len() ==> #[trigger] px@[k] == (if s.x0 <= k % w < s.x1 && s.y0 <= k / w < y {
                    Pixel::Player { pid: d.owner }
                } else {
                    before[k]
                }),
        decreases s.y1 - y,
    {
        let mut x: i32 = s.x0;
        while x < s.x1
            invariant
                f.wf(),
                w == f.w,
                h == f.h,
                px@.len() == before.len(),
                before.len() == w * h,
                0 <= s.x0 <= x,
                s.x1 <= w,
                0 <= s.y0 <= y < s.y1,
                s.y1 <= h,
                x <= s.x1 || x == s.x0,
                forall|k: int|
                    0 <= k < px@.len() ==> #[trigger] px@[k] == (if s.x0 <= k % w < s.x1 && s.y0 <= k / w < y || (s.x0 <= k % w < x
                        && k / w == y) {
                        Pixel::Player { pid: d.owner }
                    } else {
                        before[k]
                    }),
            decreases s.x1 - x,
        {
            let ghost mid = px@;
            let k: usize = index(f, x, y);
            px.set(k, Pixel::Player { pid: d.owner });
            proof {
                place_bounds(x as int, y as int, w, h);
                assert forall|j: int| 0 <= j < px@.len() implies #[trigger] px@[j] == (if s.x0 <= j % w < s.x1 && s.y0 <= j / w < y
                    || (s.x0 <= j % w < x + 1 && j / w == y) {
                    Pixel::Player { pid: d.owner }
                } else {
                    before[j]
                }) by {
                    place_of_index(j, w, h);
                    if j != k as int {
                        assert(px@[j] == mid[j]);
                        assert(!(j % w == x && j / w == y));
                    }
                }
            }
            x = x + 1;
        }
        proof {
            assert forall|k: int| 0 <= k < px@.len() implies #[trigger] px@[k] == (if s.x0 <= k % w < s.x1 && s.y0 <= k / w < y + 1 {
                Pixel::Player { pid: d.owner }
            } else {
                before[k]
            }) by {
                let (c, r) = (k % w, k / w);
                assert(s.x0 <= c < s.x1 && s.y0 <= r < y + 1 <==> s.x0 <= c < s.x1 && s.y0 <= r < y || (s.x0 <= c < x && r == y));
            }
        }
        y = y + 1;
    }
    proof {
        assert forall|k: int| 0 <= k < px@.len() implies #[trigger] px@[k] == painted(before, w, *d)[k] by {
            place_of_index(k, w, h);
            let (c, r) = (k % w, k / w);
            assert(f.inside(c, r));
            assert(stands_on(*d, c, r) <==> s.x0 <= c < s.x1 && s.y0 <= r < s.y1);
            assert(s.x0 <= c < s.x1 && s.y0 <= r < y <==> s.x0 <= c < s.x1 && s.y0 <= r < s.y1);
        }
        assert(px@ =~= painted(before, w, *d));
    }
}

/// The small map in the corner. It is drawn anew every so often.
#[derive(Debug)]
pub struct Minimap {
    cooldown: u32,
}

/// Frames between two drawings.
pub const REST: u32 = 12;

impl View for Minimap {
    type V = u32;

    closed spec fn view(&self) -> u32 {
        self.cooldown
    }
}

impl Minimap {
    pub fn new() -> (m: Minimap)
        ensures
            m@ == 0,
    {
        Minimap { cooldown: 0 }
    }

    /// A frame passes: either the map is drawn, or it rests.
    pub fn refresh(&mut self, f: &Field, dots: &Vec<Dot>, me: u8) -> (r: Option<Vec<Pixel>>)
        requires
            f.wf(),
        ensures
            r is Some <==> old(self)@ == 0,
            final(self)@ == (if old(self)@ == 0 {
                REST as int
            } else {
                old(self)@ - 1
            }),
            r matches Some(px) ==> px@ == map_of(*f, dots@, me),
    {
        if self.cooldown > 0 {
            self.cooldown = self.cooldown - 1;
            return None;
        }
        self.cooldown = REST;
        let ghost (w, h) = (f.w as int, f.h as int);
        let mut px: Vec<Pixel> = Vec::new();
        let mut k: usize = 0;
        while k < f.tiles.len()
            invariant
                f.wf(),
                w == f.w,
                h == f.h,
                k <= f.tiles@.len(),
                px@.len() == k,
                forall|j: int| 0 <= j < k ==> #[trigger] px@[j] == ground_pixel(f.tiles@[j], f.joined),
            decreases f.tiles@.len() - k,
        {
            let t: Tile = f.tiles[k];
            let v: u8 = if f.joined {
                t.fog
            } else {
                IN_SIGHT
            };
            px.push(
                if v == UNSEEN {
                    Pixel::Unseen
                } else if t.ore > 0 {
                    Pixel::Ore { dim: v == EXPLORED }
                } else {
                    Pixel::Ground { terrain: t.terrain, dim: v == EXPLORED }
                },
            );
            k = k + 1;
        }
        proof {
            assert forall|j: int| 0 <= j < px@.len() implies #[trigger] px@[j] == map_of(*f, dots@.take(0), me)[j] by {
                place_of_index(j, w, h);
            }
            assert(px@ =~= map_of(*f, dots@.take(0), me));
        }
        let mut i: usize = 0;
        while i < dots.len()
            invariant
                f.wf(),
                w == f.w,
                h == f.h,
                i <= dots@.len(),
                px@ == map_of(*f, dots@.take(i as int), me),
            decreases dots@.len() - i,
        {
            let d: Dot = dots[i];
            let ghost before = px@;
            proof {
                assert(dots@.take(i + 1).drop_last() =~= dots@.take(i as int));
                assert(dots@.take(i + 1).last() == d);
            }
            if tile_visible(f, d.at) == IN_SIGHT || d.owner == me {
                paint(&mut px, f, &d);
                proof {
                    assert(px@ =~= map_of(*f, dots@.take(i + 1), me));
                }
            } else {
                proof {
                    assert(px@ =~= map_of(*f, dots@.take(i + 1), me));
                }
            }
            i = i + 1;
        }
        proof {
            assert(dots@.take(i as int) =~= dots@);
        }
        Some(px)
    }
}

// ----------------------------------------------------------------------
// Laws
// ----------------------------------------------------------------------

/// The fog hides strangers: where nothing of ours stands and no stranger's place is in sight, the
/// map shows the ground alone.
pub proof fn fog_hides_strangers(f: Field, ds: Seq<Dot>, me: u8, x: int, y: int)
    requires
        f.wf(),
        f.inside(x, y),
        forall|i: int|
            0 <= i < ds.len() ==> #[trigger] ds[i].owner != me && visible_of(f, ds[i].at.x as int, ds[i].at.y as int) != IN_SIGHT,
    ensures
        pixel_of(f, ds, me, x, y) == ground_pixel(f.tile_at(x, y), f.joined),
    decreases ds.len(),
{
    if ds.len() > 0 {
        let rest = ds.drop_last();
        assert(ds.last() == ds[ds.len() - 1]);
        assert forall|i: int| 0 <= i < rest.len() implies #[trigger] rest[i].owner != me && visible_of(
            f,
            rest[i].at.x as int,
            rest[i].at.y as int,
        ) != IN_SIGHT by {
            assert(rest[i] == ds[i]);
        }
        fog_hides_strangers(f, rest, me, x, y);
    }
}

/// Our own are on the map: a tile that something of ours fills never shows the ground.
pub proof fn our_own_are_on_the_map(f: Field, ds: Seq<Dot>, me: u8, i: int, x: int, y: int)
    requires
        0 <= i < ds.len(),
        ds[i].owner == me,
        stands_on(ds[i], x, y),
    ensures
        pixel_of(f, ds, me, x, y) is Player,
    decreases ds.len(),
{
    if !(on_map(f, ds.last(), me) && stands_on(ds.last(), x, y)) {
        assert(ds.drop_last()[i] == ds[i]);
        our_own_are_on_the_map(f, ds.drop_last(), me, i, x, y);
    }
}

} // verus!
