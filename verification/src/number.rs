//! Numbers as JSON texts write them, and the integers they stand for.
//!
//! A number keeps its digits. Read as an integer it goes through the nearest IEEE 754 double
//! (ties to even), as is usual with JSON numbers: the fraction is cut off, negative numbers
//! give zero, and large ones the largest integer. The arithmetic here is exact: no rounding
//! but that one.

use vstd::prelude::*;

verus! {

/// A number by the values of its digits.
#[verifier::ext_equal]
pub struct NumberV {
    pub neg: bool,
    pub whole: Seq<u8>,
    pub frac: Seq<u8>,
    pub exp_neg: bool,
    pub exp: Seq<u8>,
}

/// A number as written.
#[derive(Debug)]
pub struct Number {
    neg: bool,
    whole: Vec<u8>,
    frac: Vec<u8>,
    exp_neg: bool,
    exp: Vec<u8>,
}

impl View for Number {
    type V = NumberV;

    closed spec fn view(&self) -> NumberV {
        NumberV { neg: self.neg, whole: self.whole@, frac: self.frac@, exp_neg: self.exp_neg, exp: self.exp@ }
    }
}

/// Are these the values of decimal digits?
pub open spec fn decimal(d: Seq<u8>) -> bool {
    forall|i: int| 0 <= i < d.len() ==> #[trigger] d[i] < 10
}

// ----------------------------------------------------------------------
// What a number is worth
// ----------------------------------------------------------------------

/// The value of a row of decimal digits.
pub open spec fn dec_val(d: Seq<u8>) -> nat
    decreases d.len(),
{
    if d.len() == 0 {
        0
    } else {
        dec_val(d.drop_last()) * 10 + d.last() as nat
    }
}

pub open spec fn pow10(k: nat) -> nat
    decreases k,
{
    if k == 0 {
        1
    } else {
        10 * pow10((k - 1) as nat)
    }
}

pub open spec fn pow2(k: nat) -> nat
    decreases k,
{
    if k == 0 {
        1
    } else {
        2 * pow2((k - 1) as nat)
    }
}

/// How many binary digits a number has.
pub open spec fn bits(n: nat) -> nat
    decreases n,
{
    if n == 0 {
        0
    } else {
        1 + bits(n / 2)
    }
}

/// The integer part, in 64 bits, of the double nearest to `num / den`. A double has 53
/// significant bits: below 2^52 rounding reaches the next integer only from within half of the
/// last place below it; from 2^52 on it is a rounding of the integer itself.
pub open spec fn double_to_u64(num: nat, den: nat) -> nat {
    let n = num / den;
    let rem = num % den;
    let b = bits(n);
    if b > 64 {
        u64::MAX as nat
    } else if b <= 52 {
        if (den - rem) * pow2((54 - b) as nat) <= den {
            n + 1
        } else {
            n
        }
    } else {
        let unit = pow2((b - 53) as nat);
        let q = n / unit;
        let twice = 2 * ((n % unit) * den + rem);
        let r = if twice > unit * den || (twice == unit * den && q % 2 == 1) {
            (q + 1) * unit
        } else {
            q * unit
        };
        if r > u64::MAX {
            u64::MAX as nat
        } else {
            r
        }
    }
}

/// The power of ten that the digits of the number, read as an integer, are to be multiplied by.
pub open spec fn scale(n: NumberV) -> int {
    (if n.exp_neg {
        -(dec_val(n.exp) as int)
    } else {
        dec_val(n.exp) as int
    }) - n.frac.len()
}

/// The integer a number stands for.
pub open spec fn u64_of(n: NumberV) -> nat {
    let m = dec_val(n.whole + n.frac);
    if n.neg {
        0
    } else if scale(n) >= 0 {
        double_to_u64(m * pow10(scale(n) as nat), 1)
    } else {
        double_to_u64(m, pow10((-scale(n)) as nat))
    }
}

// ----------------------------------------------------------------------
// Powers and digits
// ----------------------------------------------------------------------

proof fn pow10_pos(k: nat)
    ensures
        pow10(k) >= 1,
    decreases k,
{
    if k > 0 {
        pow10_pos((k - 1) as nat);
    }
}

proof fn pow2_pos(k: nat)
    ensures
        pow2(k) >= 1,
    decreases k,
{
    if k > 0 {
        pow2_pos((k - 1) as nat);
    }
}

proof fn pow10_add(a: nat, b: nat)
    ensures
        pow10(a + b) == pow10(a) * pow10(b),
    decreases a,
{
    if a > 0 {
        pow10_add((a - 1) as nat, b);
        assert(pow10(a + b) == 10 * pow10((a - 1 + b) as nat));
        assert(10 * (pow10((a - 1) as nat) * pow10(b)) == (10 * pow10((a - 1) as nat)) * pow10(b)) by (nonlinear_arith);
    } else {
        assert(1 * pow10(b) == pow10(b)) by (nonlinear_arith);
    }
}

proof fn pow10_mono(a: nat, b: nat)
    requires
        a <= b,
    ensures
        pow10(a) <= pow10(b),
    decreases b,
{
    if a < b {
        pow10_mono(a, (b - 1) as nat);
        pow10_pos((b - 1) as nat);
    }
}

proof fn pow10_20()
    ensures
        pow10(20) == 100_000_000_000_000_000_000,
{
    reveal_with_fuel(pow10, 21);
}

proof fn pow2_mono(a: nat, b: nat)
    requires
        a <= b,
    ensures
        pow2(a) <= pow2(b),
    decreases b,
{
    if a < b {
        pow2_mono(a, (b - 1) as nat);
        pow2_pos((b - 1) as nat);
    }
}

/// A number with `b` binary digits lies between two powers of two.
proof fn bits_bounds(n: nat)
    ensures
        n < pow2(bits(n)),
        n > 0 ==> bits(n) >= 1 && pow2((bits(n) - 1) as nat) <= n,
    decreases n,
{
    if n > 0 {
        bits_bounds(n / 2);
        if n / 2 > 0 {
            assert(pow2((bits(n) - 1) as nat) == 2 * pow2((bits(n / 2) - 1) as nat));
        } else {
            assert(bits(0) == 0);
        }
    }
}

proof fn pow2_64()
    ensures
        pow2(64) == 0x1_0000_0000_0000_0000,
        pow2(52) == 0x10_0000_0000_0000,
        pow2(53) == 0x20_0000_0000_0000,
{
    reveal_with_fuel(pow2, 65);
}

proof fn big_has_many_bits(n: nat)
    requires
        n >= 0x1_0000_0000_0000_0000,
    ensures
        bits(n) > 64,
{
    bits_bounds(n);
    pow2_64();
    if bits(n) <= 64 {
        pow2_mono(bits(n), 64);
    }
}

proof fn dec_val_bound(d: Seq<u8>)
    requires
        decimal(d),
    ensures
        dec_val(d) < pow10(d.len()),
        d.len() > 0 && d[0] > 0 ==> dec_val(d) >= pow10((d.len() - 1) as nat),
    decreases d.len(),
{
    if d.len() > 0 {
        let h = d.drop_last();
        assert forall|i: int| 0 <= i < h.len() implies #[trigger] h[i] < 10 by {
            assert(d[i] < 10);
        }
        dec_val_bound(h);
        assert(d[d.len() - 1] < 10);
        if d.len() > 1 {
            assert(h[0] == d[0]);
            assert(pow10((d.len() - 1) as nat) == 10 * pow10((h.len() - 1) as nat));
        }
    }
}

proof fn dec_val_split(a: Seq<u8>, b: Seq<u8>)
    ensures
        dec_val(a + b) == dec_val(a) * pow10(b.len()) + dec_val(b),
    decreases b.len(),
{
    if b.len() == 0 {
        assert(a + b =~= a);
        assert(dec_val(a) * 1 == dec_val(a)) by (nonlinear_arith);
    } else {
        let h = b.drop_last();
        dec_val_split(a, h);
        assert((a + b).drop_last() =~= a + h);
        assert((a + b).last() == b.last());
        let x = dec_val(a);
        let p = pow10(h.len());
        assert((x * p + dec_val(h)) * 10 == x * (10 * p) + dec_val(h) * 10) by (nonlinear_arith);
    }
}

proof fn dec_val_zeros(d: Seq<u8>)
    requires
        forall|i: int| 0 <= i < d.len() ==> #[trigger] d[i] == 0,
    ensures
        dec_val(d) == 0,
    decreases d.len(),
{
    if d.len() > 0 {
        let h = d.drop_last();
        assert forall|i: int| 0 <= i < h.len() implies #[trigger] h[i] == 0 by {
            assert(d[i] == 0);
        }
        dec_val_zeros(h);
        assert(d[d.len() - 1] == 0);
    }
}

// ----------------------------------------------------------------------
// The fraction, by its digits
// ----------------------------------------------------------------------

/// Double the fraction `0.f`; whether it reached one (which is then taken off).
fn double(f: &mut Vec<u8>) -> (carry: bool)
    requires
        decimal(old(f)@),
    ensures
        decimal(final(f)@),
        final(f)@.len() == old(f)@.len(),
        2 * dec_val(old(f)@) == (if carry {
            pow10(old(f)@.len())
        } else {
            0
        }) + dec_val(final(f)@),
{
    let n: usize = f.len();
    let mut i: usize = n;
    let mut c: u8 = 0;
    proof {
        assert(f@.skip(n as int) =~= Seq::<u8>::empty());
    }
    while i > 0
        invariant
            i <= n,
            f@.len() == n,
            old(f)@.len() == n,
            c <= 1,
            decimal(old(f)@),
            forall|j: int| 0 <= j < i ==> f@[j] == old(f)@[j],
            forall|j: int| i <= j < n ==> #[trigger] f@[j] < 10,
            2 * dec_val(old(f)@.skip(i as int)) == c * pow10((n - i) as nat) + dec_val(f@.skip(i as int)),
        decreases i,
    {
        let ghost before = f@;
        let ghost c0 = c;
        i = i - 1;
        proof {
            assert(old(f)@[i as int] < 10);
        }
        let x: u8 = f[i] * 2 + c;
        let d: u8 = if x >= 10 {
            x - 10
        } else {
            x
        };
        c = if x >= 10 {
            1
        } else {
            0
        };
        f.set(i, d);
        proof {
            let k = (n - i - 1) as nat;
            let od = old(f)@[i as int];
            let tail_old = old(f)@.skip(i + 1);
            let tail_new = before.skip(i + 1);
            assert(old(f)@.skip(i as int) =~= seq![od] + tail_old);
            assert(f@.skip(i as int) =~= seq![d] + tail_new);
            dec_val_split(seq![od], tail_old);
            dec_val_split(seq![d], tail_new);
            reveal_with_fuel(dec_val, 2);
            assert(dec_val(seq![od]) == od as nat);
            assert(dec_val(seq![d]) == d as nat);
            let p = pow10(k);
            assert(pow10(k + 1) == 10 * p);
            let a = dec_val(tail_old);
            let b = dec_val(tail_new);
            assert(2 * (od * p + a) == c * (10 * p) + (d * p + b)) by (nonlinear_arith)
                requires
                    2 * a == c0 * p + b,
                    od * 2 + c0 == c * 10 + d,
            ;
        }
    }
    proof {
        assert(old(f)@.skip(0) =~= old(f)@);
        assert(f@.skip(0) =~= f@);
        if c == 1 {
            assert(1 * pow10(n as nat) == pow10(n as nat)) by (nonlinear_arith);
        } else {
            assert(0 * pow10(n as nat) == 0) by (nonlinear_arith);
        }
    }
    c == 1
}

/// Does the fraction `0.f` lie within `1 / 2^j` below one?
fn near_one(f: &mut Vec<u8>, j: u8) -> (r: bool)
    requires
        decimal(old(f)@),
    ensures
        r == ((pow10(old(f)@.len()) - dec_val(old(f)@)) * pow2(j as nat) <= pow10(old(f)@.len())),
{
    let ghost den = pow10(f@.len());
    let mut left: u8 = j;
    while left > 0
        invariant
            left <= j,
            decimal(f@),
            f@.len() == old(f)@.len(),
            den == pow10(f@.len()),
            ((den - dec_val(f@)) * pow2(left as nat) <= den) == ((den - dec_val(old(f)@)) * pow2(j as nat) <= den),
        decreases left,
    {
        let ghost v = dec_val(f@);
        proof {
            dec_val_bound(f@);
        }
        let c: bool = double(f);
        proof {
            let w = dec_val(f@);
            dec_val_bound(f@);
            let p = pow2((left - 1) as nat);
            pow2_pos((left - 1) as nat);
            assert(pow2(left as nat) == 2 * p);
            assert((den - v) * (2 * p) == (2 * den - 2 * v) * p) by (nonlinear_arith);
            if !c {
                assert((2 * den - w) * p > den) by (nonlinear_arith)
                    requires
                        w < den,
                        p >= 1,
                ;
            } else {
                assert(2 * den - 2 * v == den - w);
            }
        }
        if !c {
            return false;
        }
        left = left - 1;
    }
    proof {
        dec_val_bound(f@);
        assert((den - dec_val(f@)) * 1 <= den) by (nonlinear_arith)
            requires
                dec_val(f@) >= 0,
        ;
    }
    true
}

/// Is the fraction `0.f` zero?
fn all_zero(f: &Vec<u8>) -> (r: bool)
    requires
        decimal(f@),
    ensures
        r == (dec_val(f@) == 0),
{
    let mut i: usize = 0;
    while i < f.len()
        invariant
            i <= f@.len(),
            decimal(f@),
            forall|j: int| 0 <= j < i ==> #[trigger] f@[j] == 0,
        decreases f@.len() - i,
    {
        if f[i] != 0 {
            proof {
                let a = f@.take(i as int);
                let b = f@.skip(i as int);
                assert(a + b =~= f@);
                dec_val_split(a, b);
                assert forall|k: int| 0 <= k < b.len() implies #[trigger] b[k] < 10 by {
                    assert(f@[k + i] < 10);
                }
                dec_val_bound(b);
                pow10_pos((b.len() - 1) as nat);
                assert(dec_val(a) * pow10(b.len()) >= 0) by (nonlinear_arith);
            }
            return false;
        }
        i = i + 1;
    }
    proof {
        dec_val_zeros(f@);
    }
    true
}

/// How many binary digits `n` has.
fn count_bits(n: u128) -> (b: u8)
    requires
        n <= 100_000_000_000_000_000_000,
    ensures
        b as nat == bits(n as nat),
{
    let mut x: u128 = n;
    let mut b: u8 = 0;
    proof {
        few_bits(n);
    }
    while x > 0
        invariant
            b + bits(x as nat) == bits(n as nat),
            bits(n as nat) <= 68,
        decreases x,
    {
        x = x / 2;
        b = b + 1;
    }
    b
}

proof fn few_bits(n: u128)
    requires
        n <= 100_000_000_000_000_000_000,
    ensures
        bits(n as nat) <= 68,
{
    bits_bounds(n as nat);
    if bits(n as nat) > 68 {
        pow2_mono(68, (bits(n as nat) - 1) as nat);
        pow2_64();
        reveal_with_fuel(pow2, 5);
        assert(pow2(68) == 16 * pow2(64));
    }
}

/// Two to the power `k`.
fn two_to(k: u8) -> (r: u128)
    requires
        k <= 64,
    ensures
        r as nat == pow2(k as nat),
{
    let mut r: u128 = 1;
    let mut i: u8 = 0;
    proof {
        pow2_64();
    }
    while i < k
        invariant
            i <= k <= 64,
            r as nat == pow2(i as nat),
            pow2(64) == 0x1_0000_0000_0000_0000,
        decreases k - i,
    {
        proof {
            pow2_mono((i + 1) as nat, 64);
        }
        r = r * 2;
        i = i + 1;
    }
    r
}

/// The integer part of the double nearest to `n + 0.f`.
fn round_double(n: u128, f: Vec<u8>) -> (r: u64)
    requires
        n <= 100_000_000_000_000_000_000,
        decimal(f@),
    ensures
        r as nat == double_to_u64((n * pow10(f@.len()) + dec_val(f@)) as nat, pow10(f@.len())),
{
    let ghost den = pow10(f@.len());
    let ghost rem = dec_val(f@);
    let ghost num = (n * den + rem) as nat;
    proof {
        pow10_pos(f@.len());
        dec_val_bound(f@);
        vstd::arithmetic::div_mod::lemma_fundamental_div_mod_converse(num as int, den as int, n as int, rem as int);
    }
    let b: u8 = count_bits(n);
    proof {
        bits_bounds(n as nat);
        pow2_64();
    }
    if b > 64 {
        return u64::MAX;
    }
    let mut f = f;
    if b <= 52 {
        proof {
            pow2_mono(b as nat, 52);
        }
        if near_one(&mut f, 54 - b) {
            return (n + 1) as u64;
        } else {
            return n as u64;
        }
    }
    proof {
        pow2_mono(b as nat, 64);
    }
    let unit: u128 = two_to(b - 53);
    proof {
        pow2_pos((b - 53) as nat);
        pow2_mono((b - 53) as nat, 64);
    }
    let q: u128 = n / unit;
    let r: u128 = n % unit;
    let ghost twice = 2 * (r * den + rem);
    let up: bool;
    if unit == 1 {
        let c: bool = double(&mut f);
        let z: bool = all_zero(&f);
        up = c && (!z || q % 2 == 1);
        proof {
            dec_val_bound(f@);
            assert(r * den == 0) by (nonlinear_arith)
                requires
                    r == 0,
            ;
            assert(1 * den == den) by (nonlinear_arith);
            assert(up == (twice > unit * den || (twice == unit * den && q % 2 == 1)));
        }
    } else {
        let z: bool = all_zero(&f);
        up = 2 * r > unit || (2 * r == unit && (!z || q % 2 == 1));
        proof {
            let e = (b - 53) as nat;
            assert(unit == 2 * pow2((e - 1) as nat));
            if 2 * r > unit {
                assert(2 * (r * den + rem) > unit * den) by (nonlinear_arith)
                    requires
                        2 * r >= unit + 1,
                        den >= 1,
                        rem >= 0,
                ;
            } else if 2 * r == unit {
                assert(2 * (r * den + rem) == unit * den + 2 * rem) by (nonlinear_arith)
                    requires
                        2 * r == unit,
                ;
            } else {
                assert(2 * r <= unit - 2);
                assert(2 * (r * den + rem) < unit * den) by (nonlinear_arith)
                    requires
                        2 * r <= unit - 2,
                        rem < den,
                        den >= 1,
                ;
            }
            assert(up == (twice > unit * den || (twice == unit * den && q % 2 == 1)));
        }
    }
    let w: u128 = if up {
        q + 1
    } else {
        q
    };
    proof {
        vstd::arithmetic::div_mod::lemma_fundamental_div_mod(n as int, unit as int);
        assert(q * unit <= n) by (nonlinear_arith)
            requires
                n == unit * q + r,
                r >= 0,
        ;
        assert((q + 1) * unit <= n + unit) by (nonlinear_arith)
            requires
                q * unit <= n,
        ;
        pow2_mono((b - 53) as nat, 64);
        assert(w * unit <= n + unit) by (nonlinear_arith)
            requires
                w == q || w == q + 1,
                (q + 1) * unit <= n + unit,
                q * unit <= n,
                unit >= 0,
        ;
    }
    let out: u128 = w * unit;
    if out > u64::MAX as u128 {
        u64::MAX
    } else {
        out as u64
    }
}

impl Number {
    #[verifier::type_invariant]
    closed spec fn inv(self) -> bool {
        decimal(self.whole@) && decimal(self.frac@) && decimal(self.exp@)
    }

    pub fn new(neg: bool, whole: Vec<u8>, frac: Vec<u8>, exp_neg: bool, exp: Vec<u8>) -> (n: Number)
        requires
            decimal(whole@),
            decimal(frac@),
            decimal(exp@),
        ensures
            n@ == (NumberV { neg, whole: whole@, frac: frac@, exp_neg, exp: exp@ }),
    {
        Number { neg, whole, frac, exp_neg, exp }
    }

    /// A copy of the number.
    pub fn dup(&self) -> (r: Number)
        ensures
            r@ == self@,
    {
        proof {
            use_type_invariant(self);
        }
        Number::new(
            self.neg,
            vstd::slice::slice_to_vec(self.whole.as_slice()),
            vstd::slice::slice_to_vec(self.frac.as_slice()),
            self.exp_neg,
            vstd::slice::slice_to_vec(self.exp.as_slice()),
        )
    }

    /// The digits before and after the point, without leading zeros; and how many zeros there
    /// were.
    fn significant(&self) -> (r: (Vec<u8>, u128))
        ensures
            decimal(r.0@),
            r.1 <= self@.whole.len() + self@.frac.len(),
            r.1 <= 0x2_0000_0000_0000_0000,
            r.0@ == (self@.whole + self@.frac).skip(r.1 as int),
            r.0@.len() > 0 ==> r.0@[0] > 0,
            dec_val(r.0@) == dec_val(self@.whole + self@.frac),
    {
        proof {
            use_type_invariant(self);
        }
        let ghost all = self@.whole + self@.frac;
        let mut out: Vec<u8> = Vec::new();
        let mut zeros: u128 = 0;
        let mut i: usize = 0;
        proof {
            assert(out@ =~= all.subrange(0, 0));
        }
        while i < self.whole.len()
            invariant
                i <= self.whole@.len(),
                decimal(self.whole@),
                decimal(out@),
                all == self@.whole + self@.frac,
                zeros <= i,
                out@ == all.subrange(zeros as int, i as int),
                forall|j: int| 0 <= j < zeros ==> #[trigger] all[j] == 0,
                out@.len() > 0 ==> out@[0] > 0,
            decreases self.whole@.len() - i,
        {
            let d: u8 = self.whole[i];
            proof {
                assert(all[i as int] == d);
                assert(self.whole@[i as int] < 10);
                assert(all.subrange(zeros as int, i + 1) =~= all.subrange(zeros as int, i as int).push(d));
                assert(all.subrange(i + 1, i + 1) =~= Seq::<u8>::empty());
            }
            if d == 0 && out.len() == 0 {
                zeros = zeros + 1;
                proof {
                    assert(out@ =~= all.subrange(zeros as int, i + 1));
                }
            } else {
                out.push(d);
            }
            i = i + 1;
        }
        let nw: usize = self.whole.len();
        let nf: usize = self.frac.len();
        let mut k: usize = 0;
        while k < nf
            invariant
                nw == self.whole@.len(),
                nf == self.frac@.len(),
                k <= nf,
                decimal(self.frac@),
                decimal(out@),
                all == self@.whole + self@.frac,
                zeros + out@.len() == self.whole@.len() + k,
                out@ == all.subrange(zeros as int, self.whole@.len() + k),
                forall|j: int| 0 <= j < zeros ==> #[trigger] all[j] == 0,
                out@.len() > 0 ==> out@[0] > 0,
            decreases self.frac@.len() - k,
        {
            let d: u8 = self.frac[k];
            proof {
                let at = self.whole@.len() + k;
                assert(all[at as int] == d);
                assert(self.frac@[k as int] < 10);
                assert(all.subrange(zeros as int, at + 1) =~= all.subrange(zeros as int, at as int).push(d));
            }
            if d == 0 && out.len() == 0 {
                zeros = zeros + 1;
                proof {
                    assert(out@ =~= all.subrange(zeros as int, self.whole@.len() + k + 1));
                }
            } else {
                out.push(d);
            }
            k = k + 1;
        }
        proof {
            let z = all.take(zeros as int);
            assert(out@ =~= all.skip(zeros as int));
            assert(all =~= z + out@);
            dec_val_split(z, out@);
            dec_val_zeros(z);
            assert(0 * pow10(out@.len()) == 0) by (nonlinear_arith);
        }
        (out, zeros)
    }

    /// The exponent, as far as it matters: beyond 10^30 either way it is cut.
    fn exponent(&self) -> (r: i128)
        ensures
            -1_000_000_000_000_000_000_000_000_000_000 <= r <= 1_000_000_000_000_000_000_000_000_000_000,
            ({
                let e = if self@.exp_neg {
                    -(dec_val(self@.exp) as int)
                } else {
                    dec_val(self@.exp) as int
                };
                r == e || (r == 1_000_000_000_000_000_000_000_000_000_000 && e > r) || (r
                    == -1_000_000_000_000_000_000_000_000_000_000 && e < r)
            }),
    {
        proof {
            use_type_invariant(self);
        }
        let cap: i128 = 1_000_000_000_000_000_000_000_000_000_000;
        let mut acc: i128 = 0;
        let mut i: usize = 0;
        while i < self.exp.len()
            invariant
                i <= self.exp@.len(),
                decimal(self.exp@),
                cap == 1_000_000_000_000_000_000_000_000_000_000,
                0 <= acc <= cap,
                acc == dec_val(self.exp@.take(i as int)) || (acc == cap && dec_val(self.exp@.take(i as int)) > cap),
            decreases self.exp@.len() - i,
        {
            proof {
                assert(self.exp@[i as int] < 10);
                assert(self.exp@.take(i + 1).drop_last() =~= self.exp@.take(i as int));
            }
            let next: i128 = acc * 10 + self.exp[i] as i128;
            acc = if next > cap {
                cap
            } else {
                next
            };
            i = i + 1;
        }
        proof {
            assert(self.exp@.take(i as int) =~= self.exp@);
        }
        if self.exp_neg {
            -acc
        } else {
            acc
        }
    }

    /// The integer the number stands for, in 64 bits.
    pub fn as_u64(&self) -> (r: u64)
        ensures
            r as nat == u64_of(self@),
    {
        if self.neg {
            return 0;
        }
        let sig: (Vec<u8>, u128) = self.significant();
        let digits: Vec<u8> = sig.0;
        let ghost m = dec_val(self@.whole + self@.frac);
        let ghost d = digits@;
        let ghost len = d.len();
        let e: i128 = self.exponent();
        let ghost true_e = scale(self@) + self@.frac.len();
        // where the point stands among the significant digits
        let point: i128 = self.whole.len() as i128 + e - sig.1 as i128;
        let ghost true_point = self@.whole.len() + true_e - sig.1;
        proof {
            assert(len == self@.whole.len() + self@.frac.len() - sig.1);
            assert(scale(self@) == true_point - len);
        }
        if digits.len() == 0 {
            proof {
                assert(m == 0);
                zero_is_zero(scale(self@));
            }
            return 0;
        }
        proof {
            dec_val_bound(d);
        }
        if point > 20 {
            proof {
                large_saturates(m, true_point, len);
            }
            return u64::MAX;
        }
        if point < 0 {
            proof {
                small_vanishes(m, true_point, len);
            }
            return 0;
        }
        proof {
            assert(point == true_point);
        }
        let p: usize = point as usize;
        // the integer part, with zeros where the digits have run out, and the fraction
        let mut n: u128 = 0;
        let mut i: usize = 0;
        while i < p && i < digits.len()
            invariant
                i <= p <= 20,
                i <= digits@.len(),
                decimal(digits@),
                n == dec_val(digits@.take(i as int)),
                n < pow10(i as nat),
            decreases p - i,
        {
            proof {
                assert(digits@[i as int] < 10);
                assert(digits@.take(i + 1).drop_last() =~= digits@.take(i as int));
                pow10_20();
                pow10_mono((i + 1) as nat, 20);
            }
            n = n * 10 + digits[i] as u128;
            i = i + 1;
        }
        let ghost head = n;
        let ghost cut = i;
        while i < p
            invariant
                cut <= i <= p <= 20,
                n == head * pow10((i - cut) as nat),
                n < pow10(i as nat),
            decreases p - i,
        {
            proof {
                pow10_20();
                pow10_mono((i + 1) as nat, 20);
                let k = (i - cut) as nat;
                assert(pow10(k + 1) == 10 * pow10(k));
                assert(head * (10 * pow10(k)) == (head * pow10(k)) * 10) by (nonlinear_arith);
            }
            n = n * 10;
            i = i + 1;
        }
        let mut f: Vec<u8> = Vec::new();
        let mut k: usize = p;
        while k < digits.len()
            invariant
                p <= k,
                k <= digits@.len() || k == p,
                decimal(digits@),
                decimal(f@),
                f@.len() == k - p,
                forall|j: int| 0 <= j < f@.len() ==> f@[j] == digits@[p + j],
            decreases digits@.len() - k,
        {
            proof {
                assert(digits@[k as int] < 10);
            }
            f.push(digits[k]);
            k = k + 1;
        }
        proof {
            pow10_20();
            pow10_mono(p as nat, 20);
            if p >= len {
                assert(f@ =~= Seq::<u8>::empty());
                assert(d.take(cut as int) =~= d);
                assert(pow10(0) == 1);
                assert(n * 1 + 0 == n) by (nonlinear_arith);
            } else {
                assert(f@ =~= d.skip(p as int));
                assert(d =~= d.take(p as int) + d.skip(p as int));
                dec_val_split(d.take(p as int), d.skip(p as int));
                assert(pow10(0) == 1);
                assert(head * 1 == head) by (nonlinear_arith);
            }
        }
        round_double(n, f)
    }
}

proof fn zero_is_zero(s: int)
    ensures
        s >= 0 ==> double_to_u64(0 * pow10(s as nat), 1) == 0,
        s < 0 ==> double_to_u64(0, pow10((-s) as nat)) == 0,
{
    pow10_pos(s as nat);
    pow10_pos((-s) as nat);
    assert(0 * pow10(s as nat) == 0) by (nonlinear_arith);
    assert(bits(0) == 0);
    pow2_64();
    pow2_mono(1, 54);
    reveal_with_fuel(pow2, 2);
    let den = if s >= 0 {
        1
    } else {
        pow10((-s) as nat)
    };
    assert(0nat / den == 0 && 0nat % den == 0) by (nonlinear_arith)
        requires
            den >= 1,
    ;
    assert((den - 0) * pow2(54) > den) by (nonlinear_arith)
        requires
            den >= 1,
            pow2(54) >= 2,
    ;
}

/// Digits without leading zeros, with more than twenty of them before the point, are beyond
/// 64 bits.
proof fn large_saturates(m: nat, point: int, len: nat)
    requires
        point > 20,
        len >= 1,
        m >= pow10((len - 1) as nat),
    ensures
        point - len >= 0 ==> double_to_u64(m * pow10((point - len) as nat), 1) == u64::MAX as nat,
        point - len < 0 ==> double_to_u64(m, pow10((len - point) as nat)) == u64::MAX as nat,
{
    pow10_20();
    pow10_mono(20, (point - 1) as nat);
    if point >= len {
        let e = (point - len) as nat;
        pow10_add((len - 1) as nat, e);
        let num = m * pow10(e);
        assert(num >= pow10((len - 1) as nat) * pow10(e)) by (nonlinear_arith)
            requires
                m >= pow10((len - 1) as nat),
                num == m * pow10(e),
        ;
        assert(num / 1 == num);
        big_has_many_bits(num);
    } else {
        let e = (len - point) as nat;
        pow10_add((point - 1) as nat, e);
        let den = pow10(e);
        pow10_pos(e);
        let big = pow10((point - 1) as nat);
        assert(m / den >= big) by (nonlinear_arith)
            requires
                m >= big * den,
                den >= 1,
        ;
        big_has_many_bits(m / den);
    }
}

/// Digits that begin behind the first place after the point are below a tenth.
proof fn small_vanishes(m: nat, point: int, len: nat)
    requires
        point < 0,
        m < pow10(len),
    ensures
        point - len < 0,
        double_to_u64(m, pow10((len - point) as nat)) == 0,
{
    let e = (len - point) as nat;
    pow10_mono(len + 1, e);
    let den = pow10(e);
    assert(10 * m < den);
    assert(m / den == 0 && m % den == m) by (nonlinear_arith)
        requires
            m < den,
    ;
    assert(bits(0) == 0);
    pow2_mono(1, 54);
    reveal_with_fuel(pow2, 2);
    assert((den - m) * pow2(54) > den) by (nonlinear_arith)
        requires
            10 * m < den,
            pow2(54) >= 2,
    ;
}

// ----------------------------------------------------------------------
// Laws
// ----------------------------------------------------------------------

/// An integer up to 2^53 is read as it is written.
pub proof fn integers_read_exactly(d: Seq<u8>)
    requires
        dec_val(d) <= 0x20_0000_0000_0000,
    ensures
        u64_of(
            NumberV { neg: false, whole: d, frac: Seq::empty(), exp_neg: false, exp: Seq::empty() },
        ) == dec_val(d),
{
    let m = dec_val(d);
    assert(d + Seq::<u8>::empty() =~= d);
    assert(pow10(0) == 1);
    assert(m * 1 == m) by (nonlinear_arith);
    assert(m / 1 == m && m % 1 == 0);
    bits_bounds(m);
    pow2_64();
    let b = bits(m);
    if b > 53 {
        pow2_mono(53, (b - 1) as nat);
        assert(pow2(54) == 2 * pow2(53));
        if b > 54 {
            pow2_mono(54, (b - 1) as nat);
        }
        reveal_with_fuel(pow2, 2);
        assert(pow2((b - 53) as nat) == 2);
        assert(m / 2 == 0x10_0000_0000_0000 && m % 2 == 0);
        assert(0 * 1 == 0 && 2 * 1 == 2);
    } else if b <= 52 {
        pow2_mono(2, (54 - b) as nat);
        reveal_with_fuel(pow2, 3);
        assert((1 - 0) * pow2((54 - b) as nat) > 1) by (nonlinear_arith)
            requires
                pow2((54 - b) as nat) >= 4,
        ;
    } else {
        assert(pow2(0) == 1);
        assert(m / 1 == m && m % 1 == 0);
        assert(0 * 1 == 0);
        assert(m * 1 == m);
    }
}

} // verus!
