//! The byte serializer shared by the wire and the save files.
//!
//! Integers are little-endian, text and blobs carry a four-byte length. A writer is modelled
//! as the bytes it holds, a reader as the bytes it has left; what a reader does is given by
//! the `take_*` functions, from the bytes left to the value and the bytes left after it.

use crate::text::string_from_utf8;
use vstd::prelude::*;
use vstd::utf8::{decode_utf8, encode_utf8, valid_utf8};

verus! {

/// The input ended early or held something no writer produces.
#[derive(Clone, Copy, Debug, PartialEq, Eq)]
pub struct DecodeErr;

pub type DResult<T> = Result<T, DecodeErr>;

// ----------------------------------------------------------------------
// The format
// ----------------------------------------------------------------------

/// The low `width` bytes of `n`, least significant first.
pub open spec fn le(n: nat, width: nat) -> Seq<u8>
    decreases width,
{
    if width == 0 {
        Seq::empty()
    } else {
        seq![(n % 256) as u8] + le(n / 256, (width - 1) as nat)
    }
}

/// The number that little-endian bytes stand for.
pub open spec fn le_value(s: Seq<u8>) -> nat
    decreases s.len(),
{
    if s.len() == 0 {
        0
    } else {
        s[0] as nat + 256 * le_value(s.drop_first())
    }
}

/// Two's complement of a signed coordinate.
pub open spec fn bits32(x: i32) -> nat {
    if x >= 0 {
        x as nat
    } else {
        (x + 0x1_0000_0000) as nat
    }
}

pub open spec fn put_blob(b: Seq<u8>) -> Seq<u8> {
    le(b.len(), 4) + b
}

pub open spec fn put_text(s: Seq<char>) -> Seq<u8> {
    put_blob(encode_utf8(s))
}

pub open spec fn put_bool(b: bool) -> Seq<u8> {
    if b {
        seq![1u8]
    } else {
        seq![0u8]
    }
}

/// The encodings of a list's items, one after the other.
pub open spec fn put_all<T>(xs: Seq<T>, put: spec_fn(T) -> Seq<u8>) -> Seq<u8>
    decreases xs.len(),
{
    if xs.len() == 0 {
        Seq::empty()
    } else {
        put(xs[0]) + put_all(xs.drop_first(), put)
    }
}

pub open spec fn take_le(s: Seq<u8>, width: nat) -> Option<(nat, Seq<u8>)> {
    if s.len() >= width {
        Some((le_value(s.take(width as int)), s.skip(width as int)))
    } else {
        None
    }
}

pub open spec fn take_u8(s: Seq<u8>) -> Option<(u8, Seq<u8>)> {
    if s.len() >= 1 {
        Some((s[0], s.skip(1)))
    } else {
        None
    }
}

pub open spec fn take_raw(s: Seq<u8>, n: nat) -> Option<(Seq<u8>, Seq<u8>)> {
    if s.len() >= n {
        Some((s.take(n as int), s.skip(n as int)))
    } else {
        None
    }
}

pub open spec fn take_blob(s: Seq<u8>) -> Option<(Seq<u8>, Seq<u8>)> {
    match take_le(s, 4) {
        Some((n, rest)) => take_raw(rest, n),
        None => None,
    }
}

pub open spec fn take_text(s: Seq<u8>) -> Option<(Seq<char>, Seq<u8>)> {
    match take_blob(s) {
        Some((b, rest)) => if valid_utf8(b) {
            Some((decode_utf8(b), rest))
        } else {
            None
        },
        None => None,
    }
}

pub open spec fn take_bool(s: Seq<u8>) -> Option<(bool, Seq<u8>)> {
    match take_u8(s) {
        Some((b, rest)) => Some((b != 0, rest)),
        None => None,
    }
}

pub open spec fn take_i32(s: Seq<u8>) -> Option<(i32, Seq<u8>)> {
    match take_le(s, 4) {
        Some((n, rest)) => Some(
            (
                if n < 0x8000_0000 {
                    n as i32
                } else {
                    (n - 0x1_0000_0000) as i32
                },
                rest,
            ),
        ),
        None => None,
    }
}

/// `n` items in a row.
pub open spec fn take_all<T>(s: Seq<u8>, n: nat, take: spec_fn(Seq<u8>) -> Option<(T, Seq<u8>)>) -> Option<
    (Seq<T>, Seq<u8>),
>
    decreases n,
{
    if n == 0 {
        Some((Seq::empty(), s))
    } else {
        match take(s) {
            Some((x, mid)) => match take_all(mid, (n - 1) as nat, take) {
                Some((xs, rest)) => Some((seq![x] + xs, rest)),
                None => None,
            },
            None => None,
        }
    }
}

// ----------------------------------------------------------------------
// The writer
// ----------------------------------------------------------------------

pub struct W {
    pub buf: Vec<u8>,
}

impl View for W {
    type V = Seq<u8>;

    open spec fn view(&self) -> Seq<u8> {
        self.buf@
    }
}

impl W {
    pub fn new() -> (w: W)
        ensures
            w@ == Seq::<u8>::empty(),
    {
        W { buf: Vec::new() }
    }

    pub fn u8(&mut self, x: u8)
        ensures
            final(self)@ == old(self)@ + seq![x],
    {
        self.buf.push(x);
        proof {
            assert(self@ =~= old(self)@ + seq![x]);
        }
    }

    pub fn bool(&mut self, b: bool)
        ensures
            final(self)@ == old(self)@ + put_bool(b),
    {
        if b {
            self.u8(1);
        } else {
            self.u8(0);
        }
    }

    fn uint(&mut self, n: u64, width: usize)
        requires
            width <= 8,
        ensures
            final(self)@ == old(self)@ + le(n as nat, width as nat),
    {
        let mut x: u64 = n;
        let mut left: usize = width;
        while left > 0
            invariant
                self@ + le(x as nat, left as nat) == old(self)@ + le(n as nat, width as nat),
            decreases left,
        {
            let ghost before = self@;
            self.buf.push((x % 256) as u8);
            proof {
                assert(self@ + le((x / 256) as nat, (left - 1) as nat) =~= before + le(x as nat, left as nat));
            }
            x = x / 256;
            left = left - 1;
        }
        proof {
            assert(self@ + Seq::<u8>::empty() =~= self@);
        }
    }

    pub fn u16(&mut self, x: u16)
        ensures
            final(self)@ == old(self)@ + le(x as nat, 2),
    {
        self.uint(x as u64, 2);
    }

    pub fn u32(&mut self, x: u32)
        ensures
            final(self)@ == old(self)@ + le(x as nat, 4),
    {
        self.uint(x as u64, 4);
    }

    pub fn u64(&mut self, x: u64)
        ensures
            final(self)@ == old(self)@ + le(x as nat, 8),
    {
        self.uint(x, 8);
    }

    pub fn i32(&mut self, x: i32)
        ensures
            final(self)@ == old(self)@ + le(bits32(x), 4),
    {
        if x >= 0 {
            self.uint(x as u64, 4);
        } else {
            self.uint((x as i64 + 0x1_0000_0000) as u64, 4);
        }
    }

    /// Append the bytes as they are.
    pub fn raw(&mut self, b: &[u8])
        ensures
            final(self)@ == old(self)@ + b@,
    {
        let mut i: usize = 0;
        while i < b.len()
            invariant
                i <= b@.len(),
                self@ + b@.skip(i as int) == old(self)@ + b@,
            decreases b@.len() - i,
        {
            let ghost before = self@;
            self.buf.push(b[i]);
            proof {
                assert(self@ + b@.skip(i + 1) =~= before + b@.skip(i as int));
            }
            i = i + 1;
        }
        proof {
            assert(self@ + b@.skip(i as int) =~= self@);
        }
    }

    pub fn arr32(&mut self, a: &[u8; 32])
        ensures
            final(self)@ == old(self)@ + a@,
    {
        self.raw(a.as_slice());
    }

    pub fn bytes(&mut self, b: &[u8])
        ensures
            final(self)@ == old(self)@ + put_blob(b@),
    {
        self.uint(b.len() as u64, 4);
        self.raw(b);
        proof {
            assert(self@ =~= old(self)@ + put_blob(b@));
        }
    }

    pub fn str(&mut self, s: &str)
        ensures
            final(self)@ == old(self)@ + put_text(s@),
    {
        self.bytes(s.as_bytes());
    }
}

// ----------------------------------------------------------------------
// The reader
// ----------------------------------------------------------------------

/// The outcome of a read against what the format says of the bytes that were left.
pub open spec fn took<T>(r: DResult<T>, want: Option<(T, Seq<u8>)>, rest: Seq<u8>) -> bool {
    match want {
        Some((v, tail)) => r == Ok::<T, DecodeErr>(v) && rest == tail,
        None => r is Err,
    }
}

/// As `took`, for a value known by its view.
pub open spec fn took_view<T: View>(r: DResult<T>, want: Option<(T::V, Seq<u8>)>, rest: Seq<u8>) -> bool {
    match want {
        Some((v, tail)) => r is Ok && r->Ok_0@ == v && rest == tail,
        None => r is Err,
    }
}

pub struct R<'a> {
    b: &'a [u8],
    i: usize,
}

impl<'a> View for R<'a> {
    type V = Seq<u8>;

    closed spec fn view(&self) -> Seq<u8> {
        self.b@.skip(self.i as int)
    }
}

impl<'a> R<'a> {
    pub closed spec fn wf(&self) -> bool {
        self.i <= self.b@.len()
    }

    pub fn new(b: &'a [u8]) -> (r: R<'a>)
        ensures
            r.wf(),
            r@ == b@,
    {
        proof {
            assert(b@.skip(0) =~= b@);
        }
        R { b, i: 0 }
    }

    pub fn u8(&mut self) -> (r: DResult<u8>)
        requires
            old(self).wf(),
        ensures
            final(self).wf(),
            took(r, take_u8(old(self)@), final(self)@),
    {
        if self.i < self.b.len() {
            let x: u8 = self.b[self.i];
            self.i = self.i + 1;
            proof {
                assert(self@ =~= old(self)@.skip(1));
            }
            Ok(x)
        } else {
            Err(DecodeErr)
        }
    }

    pub fn bool(&mut self) -> (r: DResult<bool>)
        requires
            old(self).wf(),
        ensures
            final(self).wf(),
            took(r, take_bool(old(self)@), final(self)@),
    {
        match self.u8() {
            Ok(x) => Ok(x != 0),
            Err(e) => Err(e),
        }
    }

    /// The next `n` bytes.
    pub fn raw(&mut self, n: usize) -> (r: DResult<Vec<u8>>)
        requires
            old(self).wf(),
        ensures
            final(self).wf(),
            took_view(r, take_raw(old(self)@, n as nat), final(self)@),
    {
        if n > self.b.len() - self.i {
            return Err(DecodeErr);
        }
        let total: usize = self.b.len();
        let mut out: Vec<u8> = Vec::new();
        let mut k: usize = 0;
        while k < n
            invariant
                k <= n,
                self.i + n <= total == self.b@.len(),
                out@ == self.b@.subrange(self.i as int, self.i + k),
            decreases n - k,
        {
            out.push(self.b[self.i + k]);
            proof {
                assert(self.b@.subrange(self.i as int, self.i + k + 1) =~= self.b@.subrange(
                    self.i as int,
                    self.i + k,
                ).push(self.b@[self.i + k]));
            }
            k = k + 1;
        }
        self.i = self.i + n;
        proof {
            assert(out@ =~= old(self)@.take(n as int));
            assert(self@ =~= old(self)@.skip(n as int));
        }
        Ok(out)
    }

    pub fn u16(&mut self) -> (r: DResult<u16>)
        requires
            old(self).wf(),
        ensures
            final(self).wf(),
            match take_le(old(self)@, 2) {
                Some((n, tail)) => r is Ok && r->Ok_0 as nat == n && final(self)@ == tail,
                None => r is Err,
            },
    {
        if 2 > self.b.len() - self.i {
            return Err(DecodeErr);
        }
        let x: u16 = self.b[self.i] as u16 + 256 * self.b[self.i + 1] as u16;
        proof {
            let s = self@.take(2);
            reveal_with_fuel(le_value, 3);
            assert(s.drop_first()[0] == s[1]);
            assert(x as nat == le_value(s));
        }
        self.i = self.i + 2;
        proof {
            assert(self@ =~= old(self)@.skip(2));
        }
        Ok(x)
    }

    pub fn u32(&mut self) -> (r: DResult<u32>)
        requires
            old(self).wf(),
        ensures
            final(self).wf(),
            match take_le(old(self)@, 4) {
                Some((n, tail)) => r is Ok && r->Ok_0 as nat == n && final(self)@ == tail,
                None => r is Err,
            },
    {
        if 4 > self.b.len() - self.i {
            return Err(DecodeErr);
        }
        let x: u32 = self.b[self.i] as u32 + 256 * (self.b[self.i + 1] as u32 + 256 * (self.b[self.i + 2] as u32
            + 256 * self.b[self.i + 3] as u32));
        proof {
            let s = self@.take(4);
            reveal_with_fuel(le_value, 5);
            let s1 = s.drop_first();
            let s2 = s1.drop_first();
            let s3 = s2.drop_first();
            assert(s1[0] == s[1] && s2[0] == s[2] && s3[0] == s[3]);
            assert(x as nat == le_value(s));
        }
        self.i = self.i + 4;
        proof {
            assert(self@ =~= old(self)@.skip(4));
        }
        Ok(x)
    }

    pub fn u64(&mut self) -> (r: DResult<u64>)
        requires
            old(self).wf(),
        ensures
            final(self).wf(),
            match take_le(old(self)@, 8) {
                Some((n, tail)) => r is Ok && r->Ok_0 as nat == n && final(self)@ == tail,
                None => r is Err,
            },
    {
        if 8 > self.b.len() - self.i {
            return Err(DecodeErr);
        }
        let lo: u64 = self.b[self.i] as u64 + 256 * (self.b[self.i + 1] as u64 + 256 * (self.b[self.i + 2] as u64
            + 256 * self.b[self.i + 3] as u64));
        let hi: u64 = self.b[self.i + 4] as u64 + 256 * (self.b[self.i + 5] as u64 + 256 * (self.b[self.i + 6] as u64
            + 256 * self.b[self.i + 7] as u64));
        let x: u64 = lo + 0x1_0000_0000 * hi;
        proof {
            let s = self@.take(8);
            reveal_with_fuel(le_value, 9);
            let s1 = s.drop_first();
            let s2 = s1.drop_first();
            let s3 = s2.drop_first();
            let s4 = s3.drop_first();
            let s5 = s4.drop_first();
            let s6 = s5.drop_first();
            let s7 = s6.drop_first();
            assert(s1[0] == s[1] && s2[0] == s[2] && s3[0] == s[3] && s4[0] == s[4]);
            assert(s5[0] == s[5] && s6[0] == s[6] && s7[0] == s[7]);
            assert(hi as nat == le_value(s4));
            assert(x as nat == le_value(s));
        }
        self.i = self.i + 8;
        proof {
            assert(self@ =~= old(self)@.skip(8));
        }
        Ok(x)
    }

    pub fn i32(&mut self) -> (r: DResult<i32>)
        requires
            old(self).wf(),
        ensures
            final(self).wf(),
            took(r, take_i32(old(self)@), final(self)@),
    {
        match self.u32() {
            Ok(n) => if n < 0x8000_0000 {
                Ok(n as i32)
            } else {
                Ok((n as i64 - 0x1_0000_0000) as i32)
            },
            Err(e) => Err(e),
        }
    }

    pub fn arr32(&mut self) -> (r: DResult<[u8; 32]>)
        requires
            old(self).wf(),
        ensures
            final(self).wf(),
            took_view(r, take_raw(old(self)@, 32), final(self)@),
    {
        match self.raw(32) {
            Ok(v) => {
                let a: [u8; 32] = key_of(v.as_slice());
                proof {
                    assert(a@ =~= v@);
                }
                Ok(a)
            },
            Err(e) => Err(e),
        }
    }

    pub fn bytes(&mut self) -> (r: DResult<Vec<u8>>)
        requires
            old(self).wf(),
        ensures
            final(self).wf(),
            took_view(r, take_blob(old(self)@), final(self)@),
    {
        match self.u32() {
            Ok(n) => {
                if n as u64 > self.left() as u64 {
                    return Err(DecodeErr);
                }
                self.raw(n as usize)
            },
            Err(e) => Err(e),
        }
    }

    pub fn str(&mut self) -> (r: DResult<String>)
        requires
            old(self).wf(),
        ensures
            final(self).wf(),
            took_view(r, take_text(old(self)@), final(self)@),
    {
        match self.bytes() {
            Ok(v) => match string_from_utf8(v) {
                Some(s) => Ok(s),
                None => Err(DecodeErr),
            },
            Err(e) => Err(e),
        }
    }

    /// How many bytes are left.
    pub fn left(&self) -> (n: usize)
        requires
            self.wf(),
        ensures
            n == self@.len(),
    {
        self.b.len() - self.i
    }
}

/// The first thirty-two bytes as an array.
pub fn key_of(b: &[u8]) -> (r: [u8; 32])
    requires
        b@.len() >= 32,
    ensures
        r@ == b@.take(32),
{
    let mut out = [0u8; 32];
    let mut i: usize = 0;
    while i < 32
        invariant
            i <= 32,
            b@.len() >= 32,
            forall|j: int| 0 <= j < i ==> out@[j] == b@[j],
        decreases 32 - i,
    {
        out[i] = b[i];
        i = i + 1;
    }
    proof {
        assert(out@ =~= b@.take(32));
    }
    out
}

// ----------------------------------------------------------------------
// Laws: a reader gives back what a writer wrote
// ----------------------------------------------------------------------

pub open spec fn pow256(k: nat) -> nat
    decreases k,
{
    if k == 0 {
        1
    } else {
        256 * pow256((k - 1) as nat)
    }
}

pub proof fn le_len(n: nat, width: nat)
    ensures
        le(n, width).len() == width,
    decreases width,
{
    if width > 0 {
        le_len(n / 256, (width - 1) as nat);
    }
}

/// Only the low bytes of a number are written.
pub proof fn le_mod(n: nat, width: nat)
    ensures
        le(n % pow256(width), width) == le(n, width),
        pow256(2) == 0x1_0000,
        pow256(1) == 0x100,
    decreases width,
{
    pow256_values();
    if width > 0 {
        let p = pow256((width - 1) as nat);
        pow256_positive((width - 1) as nat);
        le_mod(n / 256, (width - 1) as nat);
        vstd::arithmetic::div_mod::lemma_mod_breakdown(n as int, 256, p as int);
        let m = n % pow256(width);
        assert(m == 256 * ((n / 256) % p) + n % 256);
        assert(m % 256 == n % 256);
        assert(m / 256 == (n / 256) % p);
    }
}

pub proof fn pow256_positive(k: nat)
    ensures
        pow256(k) > 0,
    decreases k,
{
    if k > 0 {
        pow256_positive((k - 1) as nat);
    }
}

/// Little-endian bytes read back as the number, when it fits the width.
pub proof fn le_reads_back(n: nat, width: nat)
    requires
        n < pow256(width),
    ensures
        le_value(le(n, width)) == n,
        le(n, width).len() == width,
    decreases width,
{
    if width > 0 {
        le_reads_back(n / 256, (width - 1) as nat);
        let s = le(n, width);
        assert(s.drop_first() =~= le(n / 256, (width - 1) as nat));
        assert(s[0] == (n % 256) as u8);
    }
}

pub proof fn take_put_le(n: nat, width: nat, rest: Seq<u8>)
    requires
        n < pow256(width),
    ensures
        take_le(le(n, width) + rest, width) == Some((n, rest)),
{
    le_reads_back(n, width);
    let s = le(n, width) + rest;
    assert(s.take(width as int) =~= le(n, width));
    assert(s.skip(width as int) =~= rest);
}

pub proof fn pow256_values()
    ensures
        pow256(1) == 0x100,
        pow256(2) == 0x1_0000,
        pow256(4) == 0x1_0000_0000,
        pow256(8) == 0x1_0000_0000_0000_0000,
{
    reveal_with_fuel(pow256, 9);
}

pub proof fn take_put_u8(x: u8, rest: Seq<u8>)
    ensures
        take_u8(seq![x] + rest) == Some((x, rest)),
{
    assert((seq![x] + rest).skip(1) =~= rest);
}

pub proof fn concat_assoc(a: Seq<u8>, b: Seq<u8>, c: Seq<u8>)
    ensures
        (a + b) + c == a + (b + c),
{
    assert((a + b) + c =~= a + (b + c));
}

/// A leading tag byte comes off first.
pub proof fn take_tagged(tag: u8, body: Seq<u8>, rest: Seq<u8>)
    ensures
        take_u8((seq![tag] + body) + rest) == Some((tag, body + rest)),
{
    concat_assoc(seq![tag], body, rest);
    take_put_u8(tag, body + rest);
}

pub proof fn take_put_bool(b: bool, rest: Seq<u8>)
    ensures
        take_bool(put_bool(b) + rest) == Some((b, rest)),
{
    take_put_u8(if b { 1u8 } else { 0u8 }, rest);
}

pub proof fn take_put_raw(b: Seq<u8>, rest: Seq<u8>)
    ensures
        take_raw(b + rest, b.len()) == Some((b, rest)),
{
    let s = b + rest;
    assert(s.take(b.len() as int) =~= b);
    assert(s.skip(b.len() as int) =~= rest);
}

pub proof fn take_put_blob(b: Seq<u8>, rest: Seq<u8>)
    requires
        b.len() < 0x1_0000_0000,
    ensures
        take_blob(put_blob(b) + rest) == Some((b, rest)),
{
    pow256_values();
    assert(put_blob(b) + rest =~= le(b.len(), 4) + (b + rest));
    take_put_le(b.len(), 4, b + rest);
    take_put_raw(b, rest);
}

pub proof fn take_put_text(s: Seq<char>, rest: Seq<u8>)
    requires
        encode_utf8(s).len() < 0x1_0000_0000,
    ensures
        take_text(put_text(s) + rest) == Some((s, rest)),
{
    take_put_blob(encode_utf8(s), rest);
    vstd::utf8::encode_utf8_valid_utf8(s);
    vstd::utf8::encode_utf8_decode_utf8(s);
}

pub proof fn take_put_i32(x: i32, rest: Seq<u8>)
    ensures
        take_i32(le(bits32(x), 4) + rest) == Some((x, rest)),
{
    pow256_values();
    take_put_le(bits32(x), 4, rest);
}

/// A list reads back when each of its items does.
pub proof fn take_put_all<T>(
    xs: Seq<T>,
    put: spec_fn(T) -> Seq<u8>,
    take: spec_fn(Seq<u8>) -> Option<(T, Seq<u8>)>,
    rest: Seq<u8>,
)
    requires
        forall|i: int, r: Seq<u8>| 0 <= i < xs.len() ==> #[trigger] take(put(xs[i]) + r) == Some((xs[i], r)),
    ensures
        take_all(put_all(xs, put) + rest, xs.len(), take) == Some((xs, rest)),
    decreases xs.len(),
{
    if xs.len() == 0 {
        assert(put_all(xs, put) + rest =~= rest);
        assert(xs =~= Seq::empty());
    } else {
        let tail = xs.drop_first();
        let mid = put_all(tail, put) + rest;
        assert(put_all(xs, put) + rest =~= put(xs[0]) + mid);
        assert(take(put(xs[0]) + mid) == Some((xs[0], mid)));
        assert forall|i: int, r: Seq<u8>| 0 <= i < tail.len() implies #[trigger] take(put(tail[i]) + r) == Some(
            (tail[i], r),
        ) by {
            assert(tail[i] == xs[i + 1]);
            assert(take(put(xs[i + 1]) + r) == Some((xs[i + 1], r)));
        }
        take_put_all(tail, put, take, rest);
        assert(seq![xs[0]] + tail =~= xs);
    }
}

} // verus!
