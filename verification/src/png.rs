//! Screenshots: a PNG writer with stored (uncompressed) deflate blocks.

use crate::ser::{le, le_reads_back, le_value, pow256_values, W};
use vstd::prelude::*;

verus! {

// ----------------------------------------------------------------------
// The format
// ----------------------------------------------------------------------

/// The four bytes of a number, the highest first.
pub open spec fn be4(n: nat) -> Seq<u8> {
    seq![
        ((n / 0x100_0000) % 256) as u8,
        ((n / 0x1_0000) % 256) as u8,
        ((n / 0x100) % 256) as u8,
        (n % 256) as u8,
    ]
}

/// One bit of the checksum's division.
pub open spec fn crc_bit(c: u32) -> u32 {
    if c & 1 != 0 {
        0xEDB8_8320 ^ (c >> 1)
    } else {
        c >> 1
    }
}

pub open spec fn crc_bits(c: u32, n: nat) -> u32
    decreases n,
{
    if n == 0 {
        c
    } else {
        crc_bit(crc_bits(c, (n - 1) as nat))
    }
}

/// The remainder that the bytes leave, from an initial all-ones register.
pub open spec fn crc_left(data: Seq<u8>) -> u32
    decreases data.len(),
{
    if data.len() == 0 {
        0xFFFF_FFFF
    } else {
        crc_bits(crc_left(data.drop_last()) ^ (data.last() as u32), 8)
    }
}

/// The CRC-32 of a chunk.
pub open spec fn crc_of(data: Seq<u8>) -> u32 {
    !crc_left(data)
}

/// A chunk: length, tag, body, checksum of tag and body.
pub open spec fn chunk_of(tag: Seq<u8>, body: Seq<u8>) -> Seq<u8> {
    be4(body.len() % 0x1_0000_0000) + tag + body + be4(crc_of(tag + body) as nat)
}

/// Row `y` of a picture with `w4` bytes a row.
pub open spec fn row(w4: nat, y: int, pixels: Seq<u8>) -> Seq<u8> {
    pixels.subrange(y * w4, y * w4 + w4)
}

/// The scanlines of the first `h` rows: each with the filter byte 0 before it.
pub open spec fn scanlines(w4: nat, h: nat, pixels: Seq<u8>) -> Seq<u8>
    decreases h,
{
    if h == 0 {
        Seq::empty()
    } else {
        scanlines(w4, (h - 1) as nat, pixels) + seq![0u8] + row(w4, h - 1, pixels)
    }
}

/// The longest stored block.
pub const BLOCK: usize = 65535;

pub open spec fn block_len(raw: Seq<u8>) -> int {
    if raw.len() < BLOCK {
        raw.len() as int
    } else {
        BLOCK as int
    }
}

/// A stored block: whether it is the last, its length, the complement of its length, its
/// bytes.
pub open spec fn block_of(bytes: Seq<u8>, last: bool) -> Seq<u8> {
    seq![if last { 1u8 } else { 0u8 }] + le(bytes.len(), 2) + le((BLOCK - bytes.len()) as nat, 2) + bytes
}

/// The bytes as stored blocks.
pub open spec fn stored(raw: Seq<u8>) -> Seq<u8>
    decreases raw.len(),
{
    if raw.len() == 0 {
        Seq::empty()
    } else {
        let n = block_len(raw);
        block_of(raw.take(n), n == raw.len()) + stored(raw.skip(n))
    }
}

/// The two sums of Adler-32.
pub open spec fn adler_sums(raw: Seq<u8>) -> (nat, nat)
    decreases raw.len(),
{
    if raw.len() == 0 {
        (1, 0)
    } else {
        let (a, b) = adler_sums(raw.drop_last());
        let a2 = (a + raw.last() as nat) % 65521;
        (a2, (b + a2) % 65521)
    }
}

pub open spec fn adler_of(raw: Seq<u8>) -> nat {
    adler_sums(raw).1 * 0x1_0000 + adler_sums(raw).0
}

/// A zlib stream of stored blocks.
pub open spec fn zlib_of(raw: Seq<u8>) -> Seq<u8> {
    seq![0x78u8, 0x01u8] + stored(raw) + be4(adler_of(raw))
}

pub open spec fn signature() -> Seq<u8> {
    seq![0x89u8, 0x50, 0x4E, 0x47, 0x0D, 0x0A, 0x1A, 0x0A]
}

/// Eight bits a channel, true colour with alpha.
pub open spec fn header_of(w: u32, h: u32) -> Seq<u8> {
    be4(w as nat) + be4(h as nat) + seq![8u8, 6, 0, 0, 0]
}

/// The file of a picture.
pub open spec fn png_of(w: u32, h: u32, rgba: Seq<u8>) -> Seq<u8> {
    signature() + chunk_of(seq![0x49u8, 0x48, 0x44, 0x52], header_of(w, h)) + chunk_of(
        seq![0x49u8, 0x44, 0x41, 0x54],
        zlib_of(scanlines(w as nat * 4, h as nat, rgba)),
    ) + chunk_of(seq![0x49u8, 0x45, 0x4E, 0x44], Seq::empty())
}

/// The rows of a picture, the last first.
pub open spec fn flipped(w4: nat, h: nat, pixels: Seq<u8>) -> Seq<u8>
    decreases h,
{
    if h == 0 {
        Seq::empty()
    } else {
        row(w4, h - 1, pixels) + flipped(w4, (h - 1) as nat, pixels)
    }
}

// ----------------------------------------------------------------------
// The writer
// ----------------------------------------------------------------------

fn push_be4(w: &mut W, n: u32)
    ensures
        final(w).buf@ == old(w).buf@ + be4(n as nat),
{
    w.u8((n / 0x100_0000) as u8);
    w.u8(((n / 0x1_0000) % 256) as u8);
    w.u8(((n / 0x100) % 256) as u8);
    w.u8((n % 256) as u8);
    proof {
        assert(w.buf@ =~= old(w).buf@ + be4(n as nat));
    }
}

/// The CRC-32 of some bytes.
pub fn crc32(data: &[u8]) -> (r: u32)
    ensures
        r == crc_of(data@),
{
    let mut c: u32 = 0xFFFF_FFFF;
    let mut i: usize = 0;
    while i < data.len()
        invariant
            i <= data@.len(),
            c == crc_left(data@.take(i as int)),
        decreases data@.len() - i,
    {
        let ghost before = c;
        c = c ^ (data[i] as u32);
        let ghost start = c;
        let mut k: usize = 0;
        while k < 8
            invariant
                k <= 8,
                c == crc_bits(start, k as nat),
            decreases 8 - k,
        {
            c = if c & 1 != 0 { 0xEDB8_8320 ^ (c >> 1) } else { c >> 1 };
            k = k + 1;
        }
        proof {
            assert(data@.take(i + 1).drop_last() =~= data@.take(i as int));
        }
        i = i + 1;
    }
    proof {
        assert(data@.take(i as int) =~= data@);
    }
    !c
}

proof fn adler_bounds(raw: Seq<u8>)
    ensures
        adler_sums(raw).0 < 65521,
        adler_sums(raw).1 < 65521,
    decreases raw.len(),
{
    if raw.len() > 0 {
        adler_bounds(raw.drop_last());
    }
}

/// The Adler-32 of some bytes.
pub fn adler32(raw: &[u8]) -> (r: u32)
    ensures
        r == adler_of(raw@),
{
    let mut a: u32 = 1;
    let mut b: u32 = 0;
    let mut i: usize = 0;
    while i < raw.len()
        invariant
            i <= raw@.len(),
            (a as nat, b as nat) == adler_sums(raw@.take(i as int)),
            a < 65521,
            b < 65521,
        decreases raw@.len() - i,
    {
        proof {
            assert(raw@.take(i + 1).drop_last() =~= raw@.take(i as int));
        }
        a = (a + raw[i] as u32) % 65521;
        b = (b + a) % 65521;
        i = i + 1;
    }
    proof {
        assert(raw@.take(i as int) =~= raw@);
    }
    b * 0x1_0000 + a
}

fn push_chunk(w: &mut W, tag: &[u8], body: &[u8])
    ensures
        final(w).buf@ == old(w).buf@ + chunk_of(tag@, body@),
{
    push_be4(w, (body.len() as u64 % 0x1_0000_0000) as u32);
    w.raw(tag);
    w.raw(body);
    let mut both = W::new();
    both.raw(tag);
    both.raw(body);
    proof {
        assert(both.buf@ =~= tag@ + body@);
    }
    push_be4(w, crc32(both.buf.as_slice()));
    proof {
        assert(w.buf@ =~= old(w).buf@ + chunk_of(tag@, body@));
    }
}

proof fn row_fits(w4: int, y: int, h: int)
    requires
        0 <= y < h,
        0 <= w4,
    ensures
        0 <= y * w4,
        y * w4 + w4 <= h * w4,
        (y + 1) * w4 == y * w4 + w4,
{
    assert((y + 1) * w4 == y * w4 + w4) by (nonlinear_arith);
    assert((y + 1) * w4 <= h * w4) by (nonlinear_arith)
        requires
            y + 1 <= h,
            0 <= w4,
    ;
    assert(0 <= y * w4) by (nonlinear_arith)
        requires
            0 <= y,
            0 <= w4,
    ;
}

/// The scanlines of a picture.
pub fn raw_lines(w4: usize, h: usize, pixels: &[u8]) -> (r: Vec<u8>)
    requires
        h * w4 <= pixels@.len(),
    ensures
        r@ == scanlines(w4 as nat, h as nat, pixels@),
{
    let total: usize = pixels.len();
    let mut out = W::new();
    let mut y: usize = 0;
    let mut at: usize = 0;
    proof {
        assert(out.buf@ =~= scanlines(w4 as nat, 0, pixels@));
    }
    while y < h
        invariant
            y <= h,
            at == y * w4,
            h * w4 <= total == pixels@.len(),
            out.buf@ == scanlines(w4 as nat, y as nat, pixels@),
        decreases h - y,
    {
        proof {
            row_fits(w4 as int, y as int, h as int);
        }
        out.u8(0);
        out.raw(vstd::slice::slice_subrange(pixels, at, at + w4));
        proof {
            assert(out.buf@ =~= scanlines(w4 as nat, (y + 1) as nat, pixels@));
        }
        at = at + w4;
        y = y + 1;
    }
    out.buf
}

fn push_stored(w: &mut W, raw: &[u8])
    ensures
        final(w).buf@ == old(w).buf@ + stored(raw@),
{
    let ghost base = w.buf@;
    let mut i: usize = 0;
    proof {
        assert(raw@.skip(0) =~= raw@);
    }
    while i < raw.len()
        invariant
            i <= raw@.len(),
            w.buf@ + stored(raw@.skip(i as int)) == base + stored(raw@),
        decreases raw@.len() - i,
    {
        let ghost left = raw@.skip(i as int);
        let ghost before = w.buf@;
        let n: usize = if raw.len() - i < BLOCK { raw.len() - i } else { BLOCK };
        let last: bool = i + n == raw.len();
        w.u8(if last { 1 } else { 0 });
        w.u16(n as u16);
        w.u16((BLOCK - n) as u16);
        w.raw(vstd::slice::slice_subrange(raw, i, i + n));
        proof {
            assert(left.take(n as int) =~= raw@.subrange(i as int, i + n));
            assert(left.skip(n as int) =~= raw@.skip(i + n));
            assert(w.buf@ =~= before + block_of(left.take(n as int), last));
            assert(w.buf@ + stored(left.skip(n as int)) =~= before + stored(left));
        }
        i = i + n;
    }
    proof {
        assert(raw@.skip(i as int).len() == 0);
        assert(w.buf@ + stored(raw@.skip(i as int)) =~= w.buf@);
    }
}

/// The zlib stream of some bytes, in stored blocks.
pub fn zlib(raw: &[u8]) -> (r: Vec<u8>)
    ensures
        r@ == zlib_of(raw@),
{
    let mut w = W::new();
    w.u8(0x78);
    w.u8(0x01);
    push_stored(&mut w, raw);
    push_be4(&mut w, adler32(raw));
    proof {
        adler_bounds(raw@);
        assert(w.buf@ =~= zlib_of(raw@));
    }
    w.buf
}

/// The PNG file of a picture: `h` rows of `w` pixels, four bytes each.
pub fn encode_png(w: u32, h: u32, rgba: &[u8]) -> (r: Vec<u8>)
    requires
        h as nat * (w as nat * 4) <= rgba@.len(),
        w as nat * 4 <= usize::MAX,
    ensures
        r@ == png_of(w, h, rgba@),
{
    let raw: Vec<u8> = raw_lines((w as u64 * 4) as usize, h as usize, rgba);
    let z: Vec<u8> = zlib(raw.as_slice());
    let mut head = W::new();
    push_be4(&mut head, w);
    push_be4(&mut head, h);
    head.u8(8);
    head.u8(6);
    head.u8(0);
    head.u8(0);
    head.u8(0);
    proof {
        assert(head.buf@ =~= header_of(w, h));
    }
    let mut out = W::new();
    out.u8(0x89);
    out.u8(0x50);
    out.u8(0x4E);
    out.u8(0x47);
    out.u8(0x0D);
    out.u8(0x0A);
    out.u8(0x1A);
    out.u8(0x0A);
    proof {
        assert(out.buf@ =~= signature());
    }
    let ihdr: [u8; 4] = [0x49, 0x48, 0x44, 0x52];
    let idat: [u8; 4] = [0x49, 0x44, 0x41, 0x54];
    let iend: [u8; 4] = [0x49, 0x45, 0x4E, 0x44];
    let empty: Vec<u8> = Vec::new();
    proof {
        assert(ihdr@ =~= seq![0x49u8, 0x48, 0x44, 0x52]);
        assert(idat@ =~= seq![0x49u8, 0x44, 0x41, 0x54]);
        assert(iend@ =~= seq![0x49u8, 0x45, 0x4E, 0x44]);
    }
    push_chunk(&mut out, ihdr.as_slice(), head.buf.as_slice());
    push_chunk(&mut out, idat.as_slice(), z.as_slice());
    push_chunk(&mut out, iend.as_slice(), empty.as_slice());
    out.buf
}

/// The picture turned upside down: frame buffers hold their last row first.
pub fn flip_rows(w: usize, h: usize, pixels: &[u8]) -> (r: Vec<u8>)
    requires
        w * 4 <= usize::MAX,
        h * (w * 4) <= pixels@.len(),
    ensures
        r@ == flipped(w as nat * 4, h as nat, pixels@),
{
    let w4: usize = w * 4;
    let total: usize = pixels.len();
    proof {
        assert(h * w4 <= total);
        assert(0 <= h * w4) by (nonlinear_arith);
    }
    let ghost all = flipped(w4 as nat, h as nat, pixels@);
    let mut out = W::new();
    let mut y: usize = h;
    let mut at: usize = h * w4;
    proof {
        assert(out.buf@ + all =~= all);
    }
    while y > 0
        invariant
            y <= h,
            at == y * w4,
            h * w4 <= total == pixels@.len(),
            out.buf@ + flipped(w4 as nat, y as nat, pixels@) == all,
        decreases y,
    {
        let ghost before = out.buf@;
        proof {
            row_fits(w4 as int, y - 1, h as int);
        }
        at = at - w4;
        out.raw(vstd::slice::slice_subrange(pixels, at, at + w4));
        proof {
            assert(out.buf@ + flipped(w4 as nat, (y - 1) as nat, pixels@) =~= before + flipped(w4 as nat, y as nat, pixels@));
        }
        y = y - 1;
    }
    proof {
        assert(out.buf@ + flipped(w4 as nat, 0, pixels@) =~= out.buf@);
    }
    out.buf
}

// ----------------------------------------------------------------------
// Laws
// ----------------------------------------------------------------------

/// What a decoder of stored blocks reads.
pub open spec fn unstored(s: Seq<u8>) -> Option<Seq<u8>>
    decreases s.len(),
{
    if s.len() < 5 {
        None
    } else {
        let n = le_value(s.subrange(1, 3)) as int;
        if le_value(s.subrange(3, 5)) + n != BLOCK || s.len() < 5 + n || s[0] > 1 {
            None
        } else if s[0] == 1 {
            Some(s.subrange(5, 5 + n))
        } else {
            match unstored(s.skip(5 + n)) {
                Some(rest) => Some(s.subrange(5, 5 + n) + rest),
                None => None,
            }
        }
    }
}

proof fn block_head(bytes: Seq<u8>, last: bool, rest: Seq<u8>)
    requires
        bytes.len() <= BLOCK,
    ensures
        ({
            let s = block_of(bytes, last) + rest;
            let n = bytes.len() as int;
            &&& s.len() == 5 + n + rest.len()
            &&& s[0] == (if last { 1u8 } else { 0u8 })
            &&& le_value(s.subrange(1, 3)) == n
            &&& le_value(s.subrange(3, 5)) == BLOCK - n
            &&& s.subrange(5, 5 + n) == bytes
            &&& s.skip(5 + n) == rest
        }),
{
    let s = block_of(bytes, last) + rest;
    let n = bytes.len();
    pow256_values();
    le_reads_back(n, 2);
    le_reads_back((BLOCK - n) as nat, 2);
    assert(s.subrange(1, 3) =~= le(n, 2));
    assert(s.subrange(3, 5) =~= le((BLOCK - n) as nat, 2));
    assert(s.subrange(5, 5 + n as int) =~= bytes);
    assert(s.skip(5 + n as int) =~= rest);
}

/// A decoder of the stored blocks reads the bytes, whatever stands behind them.
pub proof fn stored_blocks_read_back(raw: Seq<u8>, rest: Seq<u8>)
    requires
        raw.len() > 0,
    ensures
        unstored(stored(raw) + rest) == Some(raw),
    decreases raw.len(),
{
    let n = block_len(raw);
    let (head, tail) = (raw.take(n), raw.skip(n));
    let last = n == raw.len();
    let more = stored(tail) + rest;
    block_head(head, last, more);
    assert(stored(raw) + rest =~= block_of(head, last) + more);
    if last {
        assert(head =~= raw);
    } else {
        stored_blocks_read_back(tail, rest);
        assert(head + tail =~= raw);
    }
}

/// The pixels in some scanlines.
pub open spec fn unlined(w4: nat, h: nat, lines: Seq<u8>) -> Seq<u8>
    decreases h,
{
    if h == 0 {
        Seq::empty()
    } else {
        unlined(w4, (h - 1) as nat, lines) + lines.subrange((h - 1) * (w4 + 1) + 1, (h - 1) * (w4 + 1) + 1 + w4)
    }
}

proof fn lines_len(w4: nat, h: nat, pixels: Seq<u8>)
    requires
        h * w4 <= pixels.len(),
    ensures
        scanlines(w4, h, pixels).len() == h * (w4 + 1),
    decreases h,
{
    if h > 0 {
        row_fits(w4 as int, h - 1, h as int);
        lines_len(w4, (h - 1) as nat, pixels);
        assert((h - 1) * (w4 + 1) + 1 + w4 == h * (w4 + 1)) by (nonlinear_arith);
    } else {
        assert(h * (w4 + 1) == 0) by (nonlinear_arith)
            requires
                h == 0,
        ;
    }
}

proof fn lines_hold(w4: nat, h: nat, k: nat, pixels: Seq<u8>)
    requires
        h * w4 <= pixels.len(),
        k <= h,
    ensures
        unlined(w4, k, scanlines(w4, h, pixels)) == pixels.take((k * w4) as int),
    decreases h, k,
{
    if k == 0 {
        assert(k * w4 == 0) by (nonlinear_arith)
            requires
                k == 0,
        ;
        assert(unlined(w4, k, scanlines(w4, h, pixels)) =~= pixels.take(0));
    } else {
        lines_hold(w4, h, (k - 1) as nat, pixels);
        line_at(w4, h, k - 1, pixels);
        row_fits(w4 as int, k - 1, h as int);
        assert(unlined(w4, k, scanlines(w4, h, pixels)) =~= pixels.take((k * w4) as int));
    }
}

proof fn line_at(w4: nat, h: nat, y: int, pixels: Seq<u8>)
    requires
        h * w4 <= pixels.len(),
        0 <= y < h,
    ensures
        y * (w4 + 1) + 1 + w4 <= scanlines(w4, h, pixels).len(),
        0 <= y * (w4 + 1),
        scanlines(w4, h, pixels).subrange(y * (w4 + 1) + 1, y * (w4 + 1) + 1 + w4) == row(w4, y, pixels),
    decreases h,
{
    let all = scanlines(w4, h, pixels);
    let head = scanlines(w4, (h - 1) as nat, pixels);
    row_fits(w4 as int, h - 1, h as int);
    row_fits(w4 as int, y, h as int);
    lines_len(w4, (h - 1) as nat, pixels);
    lines_len(w4, h, pixels);
    row_fits(w4 as int + 1, y, h as int);
    if y == h - 1 {
        assert(all.subrange(y * (w4 + 1) + 1, y * (w4 + 1) + 1 + w4) =~= row(w4, y, pixels));
    } else {
        line_at(w4, (h - 1) as nat, y, pixels);
        assert(all.subrange(y * (w4 + 1) + 1, y * (w4 + 1) + 1 + w4) =~= head.subrange(
            y * (w4 + 1) + 1,
            y * (w4 + 1) + 1 + w4,
        ));
    }
}

/// The scanlines hold the picture's rows, in their order.
pub proof fn scanlines_read_back(w4: nat, h: nat, pixels: Seq<u8>)
    requires
        h * w4 <= pixels.len(),
    ensures
        unlined(w4, h, scanlines(w4, h, pixels)) == pixels.take((h * w4) as int),
{
    lines_hold(w4, h, h, pixels);
}

proof fn flipped_row(w4: nat, h: nat, y: int, pixels: Seq<u8>)
    requires
        h * w4 <= pixels.len(),
        0 <= y < h,
    ensures
        flipped(w4, h, pixels).len() == h * w4,
        row(w4, y, flipped(w4, h, pixels)) == row(w4, h - 1 - y, pixels),
    decreases h,
{
    let all = flipped(w4, h, pixels);
    row_fits(w4 as int, h - 1, h as int);
    row_fits(w4 as int, y, h as int);
    if h == 1 {
        assert(flipped(w4, 0, pixels) =~= Seq::<u8>::empty());
        assert(h * w4 == w4) by (nonlinear_arith)
            requires
                h == 1,
        ;
        assert(0 * w4 == 0) by (nonlinear_arith);
        assert(row(w4, y, all) =~= row(w4, 0, pixels));
    } else {
        let tail = flipped(w4, (h - 1) as nat, pixels);
        if y == 0 {
            flipped_row(w4, (h - 1) as nat, 0, pixels);
            assert(0 * w4 == 0) by (nonlinear_arith);
            assert(row(w4, 0, all) =~= row(w4, h - 1, pixels));
        } else {
            flipped_row(w4, (h - 1) as nat, y - 1, pixels);
            row_fits(w4 as int, y - 1, h as int);
            row_fits(w4 as int, y - 1, h - 1);
            assert(row(w4, y, all) =~= row(w4, y - 1, tail));
        }
    }
}

proof fn flipped_back(w4: nat, h: nat, k: nat, pixels: Seq<u8>)
    requires
        h * w4 <= pixels.len(),
        k <= h,
    ensures
        0 <= (h - k) * w4 <= h * w4,
        flipped(w4, k, flipped(w4, h, pixels)) == pixels.subrange((h - k) * w4, (h * w4) as int),
    decreases k,
{
    if k == 0 {
        assert(0 <= h * w4) by (nonlinear_arith);
        assert(flipped(w4, k, flipped(w4, h, pixels)) =~= pixels.subrange((h - k) * w4, (h * w4) as int));
    } else {
        flipped_back(w4, h, (k - 1) as nat, pixels);
        flipped_row(w4, h, k - 1, pixels);
        row_fits(w4 as int, h - k, h as int);
        assert(flipped(w4, k, flipped(w4, h, pixels)) =~= pixels.subrange((h - k) * w4, (h * w4) as int));
    }
}

/// A picture turned upside down twice is the picture.
pub proof fn flipping_twice_undoes(w4: nat, h: nat, pixels: Seq<u8>)
    requires
        pixels.len() == h * w4,
    ensures
        flipped(w4, h, flipped(w4, h, pixels)) == pixels,
{
    flipped_back(w4, h, h, pixels);
    assert((h - h) * w4 == 0) by (nonlinear_arith);
    assert(pixels.subrange(0, (h * w4) as int) =~= pixels);
}

} // verus!
