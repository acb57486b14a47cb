//! What pictures, sounds and the bar beside the field are for: what a decoder reads in a file, what the ground and
//! the small map show, and what a click on the bar hits.

use crate::ground::{
    ground_pixel, hint_of, map_of, pixel_of, tiles_of, visible_of, Dot, Field, Pixel, Span, Tile,
};
use crate::kinds::{build_tab_of, unit_tab_of};
use crate::png::{
    flipped, png_of, row, scanlines, scanlines_read_back, stored, stored_blocks_read_back, unlined,
    unstored, zlib_of,
};
use crate::ser::{le_reads_back, le_value, pow256_values};
use crate::sidebar::{credits_of, fit_of, hit_of, room, seconds_of, tab_area, Place, SidebarHit};
use crate::soundtrack::{semitones_of, wav_sibling};
use crate::wav::wav_of;
use vstd::prelude::*;

verus! {

// ----------------------------------------------------------------------
// Pictures
// ----------------------------------------------------------------------

/// The number in four bytes, the highest first.
pub open spec fn big(s: Seq<u8>) -> int {
    s[0] * 0x100_0000 + s[1] * 0x1_0000 + s[2] * 0x100 + s[3]
}

proof fn four_bytes(n: nat)
    requires
        n < 0x1_0000_0000,
    ensures
        big(crate::png::be4(n)) == n,
{
}

proof fn lines_len(w4: nat, h: nat, pixels: Seq<u8>)
    requires
        h * w4 <= pixels.len(),
    ensures
        scanlines(w4, h, pixels).len() == h * (w4 + 1),
    decreases h,
{
    if h > 0 {
        let m = (h - 1) as nat;
        assert(m * w4 + w4 == h * w4) by (nonlinear_arith)
            requires
                h == m + 1,
        ;
        assert(m * (w4 + 1) + w4 + 1 == h * (w4 + 1)) by (nonlinear_arith)
            requires
                h == m + 1,
        ;
        lines_len(w4, m, pixels);
    }
}

/// A decoder reads the picture: the signature is that of a picture, the first chunk gives its width and height, and
/// the bytes of the second chunk unpack to its rows.
pub proof fn pictures_are_read_back(w: u32, h: u32, rgba: Seq<u8>)
    requires
        rgba.len() == h as nat * (w as nat * 4),
        h > 0,
        zlib_of(scanlines(w as nat * 4, h as nat, rgba)).len() < 0x1_0000_0000,
    ensures
        ({
            let f = png_of(w, h, rgba);
            let n = big(f.subrange(33, 37));
            &&& f.len() >= 53 + n
            &&& f.take(8) == seq![0x89u8, 0x50, 0x4E, 0x47, 0x0D, 0x0A, 0x1A, 0x0A]
            &&& big(f.subrange(8, 12)) == 13
            &&& f.subrange(12, 16) == seq![0x49u8, 0x48, 0x44, 0x52]
            &&& big(f.subrange(16, 20)) == w
            &&& big(f.subrange(20, 24)) == h
            &&& f.subrange(24, 29) == seq![8u8, 6, 0, 0, 0]
            &&& f.subrange(37, 41) == seq![0x49u8, 0x44, 0x41, 0x54]
            &&& f[41] == 0x78 && f[42] == 0x01
            &&& unstored(f.subrange(43, 41 + n)) matches Some(lines) && unlined(w as nat * 4, h as nat, lines) == rgba
        }),
{
    let w4 = w as nat * 4;
    let lines = scanlines(w4, h as nat, rgba);
    let end = crate::png::be4(crate::png::adler_of(lines));
    lines_len(w4, h as nat, rgba);
    assert(lines.len() > 0) by (nonlinear_arith)
        requires
            lines.len() == h as nat * (w4 + 1),
            h > 0,
    ;
    stored_blocks_read_back(lines, end);
    scanlines_read_back(w4, h as nat, rgba);
    assert(rgba.take((h as nat * w4) as int) =~= rgba);
    contents(lines, end);
    parts(w, h, zlib_of(lines));
}

proof fn parts(w: u32, h: u32, z: Seq<u8>)
    requires
        2 <= z.len() < 0x1_0000_0000,
    ensures
        ({
            let f = crate::png::signature() + crate::png::chunk_of(
                seq![0x49u8, 0x48, 0x44, 0x52],
                crate::png::header_of(w, h),
            ) + crate::png::chunk_of(seq![0x49u8, 0x44, 0x41, 0x54], z) + crate::png::chunk_of(
                seq![0x49u8, 0x45, 0x4E, 0x44],
                Seq::empty(),
            );
            &&& f.len() == 57 + z.len()
            &&& f.take(8) == seq![0x89u8, 0x50, 0x4E, 0x47, 0x0D, 0x0A, 0x1A, 0x0A]
            &&& big(f.subrange(8, 12)) == 13
            &&& f.subrange(12, 16) == seq![0x49u8, 0x48, 0x44, 0x52]
            &&& big(f.subrange(16, 20)) == w
            &&& big(f.subrange(20, 24)) == h
            &&& f.subrange(24, 29) == seq![8u8, 6, 0, 0, 0]
            &&& big(f.subrange(33, 37)) == z.len()
            &&& f.subrange(37, 41) == seq![0x49u8, 0x44, 0x41, 0x54]
            &&& f[41] == z[0] && f[42] == z[1]
            &&& f.subrange(43, 41 + z.len() as int) == z.skip(2)
        }),
{
    let n = z.len() as int;
    let hd = crate::png::header_of(w, h);
    let t1 = seq![0x49u8, 0x48, 0x44, 0x52];
    let t2 = seq![0x49u8, 0x44, 0x41, 0x54];
    let t3 = seq![0x49u8, 0x45, 0x4E, 0x44];
    let l1 = crate::png::be4(13);
    let l2 = crate::png::be4(z.len());
    let k1 = crate::png::be4(crate::png::crc_of(t1 + hd) as nat);
    let k2 = crate::png::be4(crate::png::crc_of(t2 + z) as nat);
    let c3 = crate::png::chunk_of(t3, Seq::empty());
    four_bytes(w as nat);
    four_bytes(h as nat);
    four_bytes(13);
    four_bytes(z.len());
    headers(w, h);
    four_long(13);
    four_long(z.len());
    four_long(crate::png::crc_of(t1 + hd) as nat);
    four_long(crate::png::crc_of(t2 + z) as nat);
    four_long(0);
    four_long(crate::png::crc_of(t3 + Seq::<u8>::empty()) as nat);
    assert(z.len() % 0x1_0000_0000 == z.len());
    assert(hd.len() % 0x1_0000_0000 == 13);
    assert(c3.len() == 12);
    layout(crate::png::signature(), l1, t1, hd, k1, l2, t2, z, k2, c3);
    let f = crate::png::signature() + (l1 + t1 + hd + k1) + (l2 + t2 + z + k2) + c3;
    let a = f.subrange(16, 29);
    assert(f.subrange(16, 20) =~= a.take(4));
    assert(f.subrange(20, 24) =~= a.subrange(4, 8));
    assert(f.subrange(24, 29) =~= a.skip(8));
    let b = f.subrange(41, 41 + n);
    assert(f[41] == b[0] && f[42] == b[1]);
    assert(f.subrange(43, 41 + n) =~= b.skip(2));
}

proof fn four_long(n: nat)
    ensures
        crate::png::be4(n).len() == 4,
{
}

proof fn headers(w: u32, h: u32)
    ensures
        ({
            let hd = crate::png::header_of(w, h);
            &&& hd.len() == 13
            &&& hd.take(4) == crate::png::be4(w as nat)
            &&& hd.subrange(4, 8) == crate::png::be4(h as nat)
            &&& hd.skip(8) == seq![8u8, 6, 0, 0, 0]
        }),
{
    let hd = crate::png::header_of(w, h);
    assert(hd.take(4) =~= crate::png::be4(w as nat));
    assert(hd.subrange(4, 8) =~= crate::png::be4(h as nat));
    assert(hd.skip(8) =~= seq![8u8, 6, 0, 0, 0]);
}

proof fn contents(lines: Seq<u8>, end: Seq<u8>)
    requires
        end == crate::png::be4(crate::png::adler_of(lines)),
    ensures
        ({
            let z = zlib_of(lines);
            z.len() >= 2 && z[0] == 0x78 && z[1] == 0x01 && z.skip(2) == stored(lines) + end
        }),
{
    let z = zlib_of(lines);
    assert(z.skip(2) =~= stored(lines) + end);
}

/// Where the parts of a file with two chunks and something behind them lie.
proof fn layout(
    sig: Seq<u8>,
    l1: Seq<u8>,
    t1: Seq<u8>,
    hd: Seq<u8>,
    k1: Seq<u8>,
    l2: Seq<u8>,
    t2: Seq<u8>,
    z: Seq<u8>,
    k2: Seq<u8>,
    rest: Seq<u8>,
)
    requires
        sig.len() == 8,
        l1.len() == 4,
        t1.len() == 4,
        hd.len() == 13,
        k1.len() == 4,
        l2.len() == 4,
        t2.len() == 4,
        k2.len() == 4,
        rest.len() == 12,
    ensures
        ({
            let f = sig + (l1 + t1 + hd + k1) + (l2 + t2 + z + k2) + rest;
            &&& f.len() == 57 + z.len()
            &&& f.take(8) == sig
            &&& f.subrange(8, 12) == l1
            &&& f.subrange(12, 16) == t1
            &&& f.subrange(16, 29) == hd
            &&& f.subrange(33, 37) == l2
            &&& f.subrange(37, 41) == t2
            &&& f.subrange(41, 41 + z.len() as int) == z
        }),
{
    let c1 = l1 + t1 + hd + k1;
    let c2 = l2 + t2 + z + k2;
    let f = sig + c1 + c2 + rest;
    assert(f.take(8) =~= sig);
    assert(f.subrange(8, 33) =~= c1);
    assert(f.subrange(33, 45 + z.len() as int) =~= c2);
    assert(c1.take(4) =~= l1);
    assert(c1.subrange(4, 8) =~= t1);
    assert(c1.subrange(8, 21) =~= hd);
    assert(c2.take(4) =~= l2);
    assert(c2.subrange(4, 8) =~= t2);
    assert(c2.subrange(8, 8 + z.len() as int) =~= z);
    assert(f.subrange(8, 12) =~= f.subrange(8, 33).take(4));
    assert(f.subrange(12, 16) =~= f.subrange(8, 33).subrange(4, 8));
    assert(f.subrange(16, 29) =~= f.subrange(8, 33).subrange(8, 21));
    assert(f.subrange(33, 37) =~= f.subrange(33, 45 + z.len() as int).take(4));
    assert(f.subrange(37, 41) =~= f.subrange(33, 45 + z.len() as int).subrange(4, 8));
    assert(f.subrange(41, 41 + z.len() as int) =~= f.subrange(33, 45 + z.len() as int).subrange(8, 8 + z.len() as int));
}

proof fn flipping(w4: nat, h: nat, pixels: Seq<u8>, y: int)
    requires
        h * w4 <= pixels.len(),
        0 <= y < h,
    ensures
        flipped(w4, h, pixels).len() == h * w4,
        y * w4 + w4 <= h * w4,
        0 <= y * w4,
        flipped(w4, h, pixels).subrange(y * w4, y * w4 + w4) == row(w4, h - 1 - y, pixels),
    decreases h,
{
    let m = (h - 1) as nat;
    assert(m * w4 + w4 == h * w4) by (nonlinear_arith)
        requires
            h == m + 1,
    ;
    assert(y * w4 + w4 <= h * w4 && 0 <= y * w4) by (nonlinear_arith)
        requires
            0 <= y < h,
            0 <= w4,
    ;
    let all = flipped(w4, h, pixels);
    let rest = flipped(w4, m, pixels);
    let top = row(w4, h - 1, pixels);
    if m == 0 {
        assert(rest =~= Seq::empty());
        assert(m * w4 == 0);
        assert(y == 0);
        assert(y * w4 == 0) by (nonlinear_arith)
            requires
                y == 0,
        ;
        assert(all.subrange(0, w4 as int) =~= top);
    } else {
        flipping(w4, m, pixels, 0);
        if y == 0 {
            assert(y * w4 == 0) by (nonlinear_arith)
                requires
                    y == 0,
            ;
            assert(all.subrange(0, w4 as int) =~= top);
        } else {
            flipping(w4, m, pixels, y - 1);
            assert((y - 1) * w4 + w4 == y * w4) by (nonlinear_arith);
            assert(all.subrange(y * w4, y * w4 + w4) =~= rest.subrange((y - 1) * w4, (y - 1) * w4 + w4));
            assert(m - 1 - (y - 1) == h - 1 - y);
        }
    }
}

/// A picture turned upside down has its rows in the opposite order.
pub proof fn flipping_turns_upside_down(w4: nat, h: nat, pixels: Seq<u8>, y: int)
    requires
        h * w4 <= pixels.len(),
        0 <= y < h,
    ensures
        flipped(w4, h, pixels).subrange(y * w4, y * w4 + w4) == pixels.subrange((h - 1 - y) * w4, (h - 1 - y) * w4 + w4),
{
    flipping(w4, h, pixels, y);
}

// ----------------------------------------------------------------------
// Sounds
// ----------------------------------------------------------------------

/// A player reads in the header: two channels of 16 bits at the given rate, and as many bytes as there are
/// samples.
pub proof fn sounds_say_what_they_are(samples: Seq<i16>, rate: u32)
    requires
        36 + 2 * samples.len() <= u32::MAX,
        rate * 4 <= u32::MAX,
    ensures
        ({
            let f = wav_of(samples, rate);
            &&& f.len() >= 44
            &&& f.take(4) == seq![0x52u8, 0x49, 0x46, 0x46]
            &&& le_value(f.subrange(4, 8)) == 36 + 2 * samples.len()
            &&& f.subrange(8, 16) == seq![0x57u8, 0x41, 0x56, 0x45, 0x66, 0x6d, 0x74, 0x20]
            &&& le_value(f.subrange(16, 20)) == 16
            &&& le_value(f.subrange(20, 22)) == 1
            &&& le_value(f.subrange(22, 24)) == 2
            &&& le_value(f.subrange(24, 28)) == rate
            &&& le_value(f.subrange(28, 32)) == rate * 4
            &&& le_value(f.subrange(32, 34)) == 4
            &&& le_value(f.subrange(34, 36)) == 16
            &&& f.subrange(36, 40) == seq![0x64u8, 0x61, 0x74, 0x61]
            &&& le_value(f.subrange(40, 44)) == 2 * samples.len()
        }),
{
    pow256_values();
    let n = crate::wav::data_size(samples);
    assert(n == 2 * samples.len());
    let f = wav_of(samples, rate);
    le_reads_back(36 + n, 4);
    le_reads_back(16, 4);
    le_reads_back(1, 2);
    le_reads_back(2, 2);
    le_reads_back(rate as nat, 4);
    le_reads_back(rate as nat * 4, 4);
    le_reads_back(4, 2);
    le_reads_back(16, 2);
    le_reads_back(n, 4);
    assert(f.take(4) =~= seq![0x52u8, 0x49, 0x46, 0x46]);
    assert(f.subrange(4, 8) =~= crate::ser::le(36 + n, 4));
    assert(f.subrange(8, 16) =~= seq![0x57u8, 0x41, 0x56, 0x45, 0x66, 0x6d, 0x74, 0x20]);
    assert(f.subrange(16, 20) =~= crate::ser::le(16, 4));
    assert(f.subrange(20, 22) =~= crate::ser::le(1, 2));
    assert(f.subrange(22, 24) =~= crate::ser::le(2, 2));
    assert(f.subrange(24, 28) =~= crate::ser::le(rate as nat, 4));
    assert(f.subrange(28, 32) =~= crate::ser::le(rate as nat * 4, 4));
    assert(f.subrange(32, 34) =~= crate::ser::le(4, 2));
    assert(f.subrange(34, 36) =~= crate::ser::le(16, 2));
    assert(f.subrange(36, 40) =~= seq![0x64u8, 0x61, 0x74, 0x61]);
    assert(f.subrange(40, 44) =~= crate::ser::le(n, 4));
}

/// An octave has twelve semitones, and A4 is where they are counted from.
pub proof fn octaves_have_twelve_semitones(name: Seq<char>, a: char, b: char)
    requires
        name.len() > 0,
        '0' <= a <= '9',
        '0' <= b <= '9',
    ensures
        semitones_of(name.push(b)) is Some && semitones_of(name.push(a)) is Some,
        semitones_of(name.push(b))->0 - semitones_of(name.push(a))->0 == 12 * (b as u32 - a as u32),
        semitones_of(seq!['A', '4']) == Some(0int),
        semitones_of("R"@) is None,
{
    reveal_strlit("R");
    reveal_strlit("A");
    reveal_strlit("B");
    reveal_strlit("C#");
    reveal_strlit("D");
    reveal_strlit("D#");
    reveal_strlit("E");
    reveal_strlit("F");
    reveal_strlit("F#");
    reveal_strlit("G");
    reveal_strlit("G#");
    assert(name.push(a).drop_last() =~= name);
    assert(name.push(b).drop_last() =~= name);
    assert(seq!['A', '4'].drop_last() =~= "A"@);
    assert("A"@[0] == 'A' && "D"@[0] == 'D' && "E"@[0] == 'E' && "F"@[0] == 'F' && "G"@[0] == 'G');
    assert("A"@.len() == 1 && "C#"@.len() == 2 && "D#"@.len() == 2 && "F#"@.len() == 2 && "G#"@.len() == 2);
}

/// An `.ogg` file has a `.wav` file beside it under the same name, and no other file has.
pub proof fn siblings_share_their_name(stem: Seq<char>)
    ensures
        wav_sibling(stem + ".ogg"@) == Some(stem + ".wav"@),
        wav_sibling(stem + ".wav"@) is None,
{
    reveal_strlit(".ogg");
    reveal_strlit(".wav");
    assert((stem + ".ogg"@).skip(stem.len() as int) =~= ".ogg"@);
    assert((stem + ".ogg"@).take(stem.len() as int) =~= stem);
    assert((stem + ".wav"@).skip(stem.len() as int) =~= ".wav"@);
    assert(".wav"@[1] != ".ogg"@[1]);
}

// ----------------------------------------------------------------------
// The ground and the small map
// ----------------------------------------------------------------------

/// A settler sees of a tile what their fog leaves; who has not settled sees everything.
pub proof fn settlers_see_through_their_fog(f: Field, x: int, y: int)
    ensures
        f.joined && 0 <= x < f.w && 0 <= y < f.h ==> visible_of(f, x, y) == f.tiles@[y * f.w + x].fog,
        !f.joined || !(0 <= x < f.w && 0 <= y < f.h) ==> visible_of(f, x, y) == 2,
{
}

/// A resource is pointed out exactly where some is left and the tile was seen.
pub proof fn hints_show_what_is_left(f: Field, x: int, y: int)
    requires
        0 <= x < f.w,
        0 <= y < f.h,
    ensures
        ({
            let t = f.tiles@[y * f.w + x];
            let seen = !f.joined || t.fog != 0;
            &&& t.ore > 0 && seen ==> hint_of(f, x, y) == t.yields
            &&& t.ore == 0 || !seen ==> hint_of(f, x, y) is None
        }),
{
}

/// A pixel of the ground is dark where nothing was seen, and otherwise shows the ore or the terrain, dim where it is
/// out of sight.
pub proof fn pixels_show_the_ground(t: Tile, joined: bool)
    requires
        t.fog <= 2,
    ensures
        joined && t.fog == 0 ==> ground_pixel(t, joined) == Pixel::Unseen,
        !joined || t.fog == 2 ==> ground_pixel(t, joined) == (if t.ore > 0 {
            Pixel::Ore { dim: false }
        } else {
            Pixel::Ground { terrain: t.terrain, dim: false }
        }),
        joined && t.fog == 1 ==> ground_pixel(t, joined) == (if t.ore > 0 {
            Pixel::Ore { dim: true }
        } else {
            Pixel::Ground { terrain: t.terrain, dim: true }
        }),
{
}

/// Does the dot fill the tile, one tile at least?
pub open spec fn fills(d: Dot, x: int, y: int) -> bool {
    d.at.x <= x && d.at.y <= y && x < d.at.x + (if d.fw < 1 {
        1
    } else {
        d.fw as int
    }) && y < d.at.y + (if d.fh < 1 {
        1
    } else {
        d.fh as int
    })
}

/// May the dot be shown: is it ours, or is its place in sight?
pub open spec fn may_show(f: Field, d: Dot, me: u8) -> bool {
    d.owner == me || visible_of(f, d.at.x as int, d.at.y as int) == 2
}

/// A pixel of the small map shows the owner of the last dot on it that may be shown, and where there is none the
/// ground.
pub proof fn the_small_map_shows_the_last(f: Field, ds: Seq<Dot>, me: u8, x: int, y: int, i: int)
    requires
        -1 <= i < ds.len(),
        i >= 0 ==> may_show(f, ds[i], me) && fills(ds[i], x, y),
        forall|j: int| i < j < ds.len() ==> !(may_show(f, #[trigger] ds[j], me) && fills(ds[j], x, y)),
    ensures
        i >= 0 ==> pixel_of(f, ds, me, x, y) == (Pixel::Player { pid: ds[i].owner }),
        i < 0 ==> pixel_of(f, ds, me, x, y) == ground_pixel(f.tile_at(x, y), f.joined),
    decreases ds.len(),
{
    if ds.len() > 0 {
        let n = ds.len() - 1;
        if i < n {
            assert(!(may_show(f, ds[n], me) && fills(ds[n], x, y)));
            let head = ds.drop_last();
            assert forall|j: int| i < j < head.len() implies !(may_show(f, #[trigger] head[j], me) && fills(head[j], x, y)) by {
                assert(head[j] == ds[j]);
            }
            the_small_map_shows_the_last(f, head, me, x, y, i);
        }
    }
}

/// The small map has a pixel for every tile, row by row.
pub proof fn the_small_map_is_the_field(f: Field, ds: Seq<Dot>, me: u8, x: int, y: int)
    requires
        f.wf(),
        0 <= x < f.w,
        0 <= y < f.h,
    ensures
        map_of(f, ds, me).len() == f.w * f.h,
        0 <= y * f.w + x < f.w * f.h,
        map_of(f, ds, me)[y * f.w + x] == pixel_of(f, ds, me, x, y),
{
    let w = f.w as int;
    let h = f.h as int;
    assert(0 <= y * w + x < w * h && (y * w + x) % w == x && (y * w + x) / w == y) by (nonlinear_arith)
        requires
            0 <= x < w,
            0 <= y < h,
    ;
}

/// The tiles of a rectangle come row by row, each once.
pub proof fn tiles_come_row_by_row(s: Span, x: int, y: int)
    requires
        s.x0 <= x < s.x1,
        s.y0 <= y < s.y1,
    ensures
        ({
            let w = s.x1 - s.x0;
            let k = (y - s.y0) * w + (x - s.x0);
            &&& tiles_of(s).len() == w * (s.y1 - s.y0)
            &&& 0 <= k < tiles_of(s).len()
            &&& tiles_of(s)[k].x == x && tiles_of(s)[k].y == y
        }),
{
    let w = s.x1 - s.x0;
    let h = s.y1 - s.y0;
    let a = x - s.x0;
    let b = y - s.y0;
    assert(0 <= b * w + a < w * h && (b * w + a) % w == a && (b * w + a) / w == b) by (nonlinear_arith)
        requires
            0 <= a < w,
            0 <= b < h,
    ;
}

// ----------------------------------------------------------------------
// The bar
// ----------------------------------------------------------------------

/// A click on a tab hits that tab, and one beside the bar hits the field.
pub proof fn clicks_hit_their_tab(units_tab: bool, units: bool, joined: bool, p: Place)
    requires
        p.wf(),
    ensures
        p.x0 < 0 ==> hit_of(units_tab, joined, p) == SidebarHit::Outside,
        tab_area(units, joined).x <= p.x0 && p.x1 <= tab_area(units, joined).x + 80 && tab_area(units, joined).y <= p.y0 && p.y1
            <= tab_area(units, joined).y + 22 ==> hit_of(units_tab, joined, p) == (SidebarHit::Tab { units }),
{
}

/// The two tabs lie beside each other, at one height.
pub proof fn tabs_lie_side_by_side(joined: bool)
    ensures
        tab_area(false, joined).x + tab_area(false, joined).w < tab_area(true, joined).x,
        tab_area(false, joined).y == tab_area(true, joined).y,
        tab_area(false, true).y > tab_area(false, false).y,
{
}

/// Nothing is offered twice: the kinds of a tab differ, and no kind is in both.
pub proof fn kinds_are_offered_once(i: int, j: int)
    ensures
        0 <= i < j < build_tab_of().len() ==> build_tab_of()[i] != build_tab_of()[j],
        0 <= i < j < unit_tab_of().len() ==> unit_tab_of()[i] != unit_tab_of()[j],
        0 <= i < build_tab_of().len() && 0 <= j < unit_tab_of().len() ==> build_tab_of()[i] != unit_tab_of()[j],
        build_tab_of().len() == 27,
        unit_tab_of().len() == 13,
{
}

/// The rolling number of credits is shown as it is, from nothing up to 999 beyond what there is.
pub proof fn rolling_credits_stay_close(shown: int, credits: u32)
    ensures
        0 <= shown <= credits + 999 ==> credits_of(shown, credits) == shown,
        shown < 0 ==> credits_of(shown, credits) == 0,
        shown > credits + 999 ==> credits_of(shown, credits) == credits + 999,
{
}

/// Build times are told in seconds, rounded to the nearest.
pub proof fn build_times_are_rounded(s: nat)
    requires
        s < 400_000_000,
    ensures
        seconds_of((s * 10) as u32) == s,
        seconds_of((s * 10 + 4) as u32) == s,
        seconds_of((s * 10 + 5) as u32) == s + 1,
{
}

/// A name that fits is shown whole; otherwise as many characters as there is room for, and two dots.
pub proof fn names_are_cut_where_room_ends(t: Seq<char>, fits: Seq<bool>, k: int)
    requires
        0 <= k <= fits.len(),
        forall|j: int| 0 <= j < k ==> #[trigger] fits[j],
        k < fits.len() ==> !fits[k],
    ensures
        fit_of(t, true, fits) == t,
        k < t.len() ==> fit_of(t, false, fits) == t.take(k) + ".."@,
        k >= t.len() ==> fit_of(t, false, fits) == t + ".."@,
{
    rooming(fits, k);
}

proof fn rooming(fits: Seq<bool>, k: int)
    requires
        0 <= k <= fits.len(),
        forall|j: int| 0 <= j < k ==> #[trigger] fits[j],
        k < fits.len() ==> !fits[k],
    ensures
        room(fits) == k,
    decreases fits.len(),
{
    if k > 0 {
        assert(fits[0]);
        let rest = fits.drop_first();
        assert forall|j: int| 0 <= j < k - 1 implies #[trigger] rest[j] by {
            assert(fits[j + 1]);
        }
        rooming(rest, k - 1);
    }
}

} // verus!
