//! Text helpers: decimal and hexadecimal digits, trimming, integer parsing.
//!
//! A string is modelled as its sequence of characters.

use vstd::prelude::*;

verus! {

/// `String::push` appends one character to the end of the string.
pub assume_specification[ String::push ](s: &mut String, c: char)
    ensures
        final(s)@ == old(s)@.push(c),
;

/// `char::from_u32` gives the character of a code point, where there is one: every number up
/// to 0x10FFFF but the surrogates.
pub assume_specification[ char::from_u32 ](i: u32) -> (r: Option<char>)
    ensures
        r is Some <==> i < 0xD800 || 0xE000 <= i <= 0x10FFFF,
        r matches Some(c) ==> c == i as char,
;

/// `String::from_utf8` takes a byte vector apart into characters: it succeeds exactly on
/// well-formed UTF-8, and then the string holds the decoded characters.
#[verifier::external_body]
pub(crate) fn string_from_utf8(bytes: Vec<u8>) -> (r: Option<String>)
    ensures
        r is Some <==> vstd::utf8::valid_utf8(bytes@),
        r matches Some(s) ==> s@ == vstd::utf8::decode_utf8(bytes@),
{
    String::from_utf8(bytes).ok()
}

// ----------------------------------------------------------------------
// Digits
// ----------------------------------------------------------------------

/// The character of a hexadecimal digit, lower case.
pub open spec fn hex_digit(d: int) -> char {
    if d < 10 {
        (48 + d) as char
    } else {
        (87 + d) as char
    }
}

/// The value of a digit character in bases up to sixteen, either case.
pub open spec fn digit_value(c: char) -> Option<nat> {
    if '0' <= c <= '9' {
        Some((c as u32 - 48) as nat)
    } else if 'a' <= c <= 'f' {
        Some((c as u32 - 87) as nat)
    } else if 'A' <= c <= 'F' {
        Some((c as u32 - 55) as nat)
    } else {
        None
    }
}

/// The decimal numeral of `n`, without leading zeros.
pub open spec fn dec(n: nat) -> Seq<char>
    decreases n,
{
    if n < 10 {
        seq![hex_digit(n as int)]
    } else {
        dec(n / 10).push(hex_digit((n % 10) as int))
    }
}

/// Two lower-case hexadecimal digits per byte, high nibble first.
pub open spec fn hex(bytes: Seq<u8>) -> Seq<char> {
    Seq::new(
        bytes.len() * 2,
        |i: int|
            if i % 2 == 0 {
                hex_digit(bytes[i / 2] as int / 16)
            } else {
                hex_digit(bytes[i / 2] as int % 16)
            },
    )
}

/// The value of a digit string in `radix`; nothing when empty or when a character is no digit.
pub open spec fn digits_value(s: Seq<char>, radix: nat) -> Option<nat>
    decreases s.len(),
{
    if s.len() == 0 {
        None
    } else {
        match digit_value(s.last()) {
            Some(d) => if d >= radix {
                None
            } else if s.len() == 1 {
                Some(d)
            } else {
                match digits_value(s.drop_last(), radix) {
                    Some(v) => Some(v * radix + d),
                    None => None,
                }
            },
            None => None,
        }
    }
}

/// What an unsigned integer parser accepts: an optional plus sign and one or more digits,
/// with a value no larger than `max`.
pub open spec fn uint_value(s: Seq<char>, radix: nat, max: nat) -> Option<nat> {
    let body = if s.len() > 0 && s[0] == '+' {
        s.drop_first()
    } else {
        s
    };
    match digits_value(body, radix) {
        Some(v) => if v <= max {
            Some(v)
        } else {
            None
        },
        None => None,
    }
}

/// The hexadecimal digit of `d`.
pub fn hex_char(d: u8) -> (c: char)
    requires
        d < 16,
    ensures
        c == hex_digit(d as int),
{
    if d < 10 {
        (48u8 + d) as char
    } else {
        (87u8 + d) as char
    }
}

/// The value of a digit character, if it is one.
pub fn digit_of(c: char) -> (r: Option<u8>)
    ensures
        r is Some <==> digit_value(c) is Some,
        r matches Some(d) ==> d as nat == digit_value(c)->0 && d < 16,
{
    let n: u32 = c as u32;
    if '0' <= c && c <= '9' {
        Some((n - 48) as u8)
    } else if 'a' <= c && c <= 'f' {
        Some((n - 87) as u8)
    } else if 'A' <= c && c <= 'F' {
        Some((n - 55) as u8)
    } else {
        None
    }
}

/// Append the decimal numeral of `n`.
pub fn push_dec(out: &mut String, n: u64)
    ensures
        final(out)@ == old(out)@ + dec(n as nat),
    decreases n,
{
    if n >= 10 {
        push_dec(out, n / 10);
    }
    let ghost mid = out@;
    out.push(hex_char((n % 10) as u8));
    proof {
        if n < 10 {
            assert(out@ =~= old(out)@ + dec(n as nat));
        } else {
            assert(out@ =~= old(out)@ + dec(n as nat));
        }
    }
}

/// Append the bytes as lower-case hexadecimal digits.
pub fn push_hex(out: &mut String, bytes: &[u8])
    ensures
        final(out)@ == old(out)@ + hex(bytes@),
{
    let mut i: usize = 0;
    proof {
        assert(out@ =~= old(out)@ + hex(bytes@).take(0));
    }
    while i < bytes.len()
        invariant
            i <= bytes@.len(),
            out@ == old(out)@ + hex(bytes@).take(2 * i),
        decreases bytes@.len() - i,
    {
        let b: u8 = bytes[i];
        let ghost before = out@;
        out.push(hex_char(b / 16));
        out.push(hex_char(b % 16));
        proof {
            let h = hex(bytes@);
            assert(h[2 * i as int] == hex_digit(b as int / 16));
            assert(h[2 * i as int + 1] == hex_digit(b as int % 16));
            assert(h.take(2 * (i + 1)) =~= h.take(2 * i as int).push(h[2 * i as int]).push(h[2 * i as int + 1]));
            assert(out@ =~= old(out)@ + h.take(2 * (i + 1)));
        }
        i = i + 1;
    }
    proof {
        assert(hex(bytes@).take(2 * bytes@.len() as int) =~= hex(bytes@));
    }
}

/// Append a piece of text.
pub fn push_text(out: &mut String, s: &str)
    ensures
        final(out)@ == old(out)@ + s@,
{
    out.append(s);
}

/// A string of its own with the same text.
pub fn text_of(a: &str) -> (r: String)
    ensures
        r@ == a@,
{
    let mut s = String::new();
    push_text(&mut s, a);
    proof {
        assert(s@ =~= a@);
    }
    s
}

/// A line of text, a number, and another line.
pub fn line(a: &str, n: u64, b: &str) -> (r: String)
    ensures
        r@ == a@ + dec(n as nat) + b@,
{
    let mut s = String::new();
    push_text(&mut s, a);
    push_dec(&mut s, n);
    push_text(&mut s, b);
    proof {
        assert(s@ =~= a@ + dec(n as nat) + b@);
    }
    s
}

// ----------------------------------------------------------------------
// Characters and strings
// ----------------------------------------------------------------------

/// The characters of a string.
pub fn chars_of(s: &str) -> (r: Vec<char>)
    ensures
        r@ == s@,
{
    let mut r: Vec<char> = Vec::new();
    for c in it: s.chars()
        invariant
            r@ == s@.take(it.index()),
            it.seq() == s@,
    {
        r.push(c);
        proof {
            assert(s@.take(it.index() + 1) =~= s@.take(it.index()).push(c));
        }
    }
    proof {
        assert(s@.take(s@.len() as int) =~= s@);
    }
    r
}

/// The string of the characters `v[from..to]`.
pub fn string_of(v: &Vec<char>, from: usize, to: usize) -> (r: String)
    requires
        from <= to <= v@.len(),
    ensures
        r@ == v@.subrange(from as int, to as int),
{
    let mut r = String::new();
    let mut i: usize = from;
    proof {
        assert(r@ =~= v@.subrange(from as int, from as int));
    }
    while i < to
        invariant
            from <= i <= to <= v@.len(),
            r@ == v@.subrange(from as int, i as int),
        decreases to - i,
    {
        r.push(v[i]);
        proof {
            assert(v@.subrange(from as int, i + 1) =~= v@.subrange(from as int, i as int).push(v@[i as int]));
        }
        i = i + 1;
    }
    r
}

/// Do two byte slices hold the same bytes?
pub fn bytes_eq(a: &[u8], b: &[u8]) -> (r: bool)
    ensures
        r == (a@ == b@),
{
    if a.len() != b.len() {
        return false;
    }
    let mut i: usize = 0;
    while i < a.len()
        invariant
            i <= a@.len() == b@.len(),
            forall|j: int| 0 <= j < i ==> a@[j] == b@[j],
        decreases a@.len() - i,
    {
        if a[i] != b[i] {
            return false;
        }
        i = i + 1;
    }
    assert(a@ =~= b@);
    true
}

/// Do two strings hold the same characters?
pub fn str_eq(a: &str, b: &str) -> (r: bool)
    ensures
        r == (a@ == b@),
{
    proof {
        vstd::utf8::encode_utf8_decode_utf8(a@);
        vstd::utf8::encode_utf8_decode_utf8(b@);
    }
    bytes_eq(a.as_bytes(), b.as_bytes())
}

/// Is `c` a White_Space character?
pub open spec fn is_space(c: char) -> bool {
    let n = c as u32;
    ||| 9 <= n <= 13
    ||| n == 0x20
    ||| n == 0x85
    ||| n == 0xA0
    ||| n == 0x1680
    ||| 0x2000 <= n <= 0x200A
    ||| n == 0x2028
    ||| n == 0x2029
    ||| n == 0x202F
    ||| n == 0x205F
    ||| n == 0x3000
}

/// The text without its leading white space.
pub open spec fn trim_start(s: Seq<char>) -> Seq<char>
    decreases s.len(),
{
    if s.len() > 0 && is_space(s[0]) {
        trim_start(s.drop_first())
    } else {
        s
    }
}

/// The text without its trailing white space.
pub open spec fn trim_end(s: Seq<char>) -> Seq<char>
    decreases s.len(),
{
    if s.len() > 0 && is_space(s.last()) {
        trim_end(s.drop_last())
    } else {
        s
    }
}

/// The text without white space at either end.
pub open spec fn trim(s: Seq<char>) -> Seq<char> {
    trim_end(trim_start(s))
}

pub fn space(c: char) -> (r: bool)
    ensures
        r == is_space(c),
{
    let n: u32 = c as u32;
    (9 <= n && n <= 13) || n == 0x20 || n == 0x85 || n == 0xA0 || n == 0x1680 || (0x2000 <= n && n <= 0x200A)
        || n == 0x2028 || n == 0x2029 || n == 0x202F || n == 0x205F || n == 0x3000
}

/// Where the trimmed text of `v` begins and ends.
pub fn trim_bounds(v: &Vec<char>) -> (r: (usize, usize))
    ensures
        r.0 <= r.1 <= v@.len(),
        v@.subrange(r.0 as int, r.1 as int) == trim(v@),
{
    let mut a: usize = 0;
    proof {
        assert(v@.subrange(0, v@.len() as int) =~= v@);
    }
    while a < v.len() && space(v[a])
        invariant
            a <= v@.len(),
            trim_start(v@.subrange(a as int, v@.len() as int)) == trim_start(v@),
        decreases v@.len() - a,
    {
        proof {
            let rest = v@.subrange(a as int, v@.len() as int);
            assert(rest.drop_first() =~= v@.subrange(a + 1, v@.len() as int));
        }
        a = a + 1;
    }
    let ghost body = v@.subrange(a as int, v@.len() as int);
    let mut b: usize = v.len();
    while b > a && space(v[b - 1])
        invariant
            a <= b <= v@.len(),
            trim_end(v@.subrange(a as int, b as int)) == trim_end(body),
        decreases b,
    {
        proof {
            let rest = v@.subrange(a as int, b as int);
            assert(rest.drop_last() =~= v@.subrange(a as int, b - 1));
        }
        b = b - 1;
    }
    (a, b)
}

// ----------------------------------------------------------------------
// Integers
// ----------------------------------------------------------------------

proof fn lemma_prefix_bounds(s: Seq<char>, k: int, radix: nat)
    requires
        1 <= k <= s.len(),
        radix >= 1,
        digits_value(s, radix) is Some,
    ensures
        digits_value(s.take(k), radix) is Some,
        digits_value(s.take(k), radix)->0 <= digits_value(s, radix)->0,
    decreases s.len(),
{
    if k == s.len() {
        assert(s.take(k) =~= s);
    } else {
        lemma_prefix_bounds(s.drop_last(), k, radix);
        assert(s.drop_last().take(k) =~= s.take(k));
        let v = digits_value(s.drop_last(), radix)->0;
        assert(v * radix >= v) by (nonlinear_arith)
            requires
                radix >= 1,
        ;
    }
}

/// Parse `v[from..to]` as an unsigned integer in `radix`, at most `max`.
pub fn parse_uint(v: &Vec<char>, from: usize, to: usize, radix: u8, max: u64) -> (r: Option<u64>)
    requires
        from <= to <= v@.len(),
        2 <= radix <= 16,
    ensures
        r is Some <==> uint_value(v@.subrange(from as int, to as int), radix as nat, max as nat) is Some,
        r matches Some(n) ==> n as nat == uint_value(
            v@.subrange(from as int, to as int),
            radix as nat,
            max as nat,
        )->0,
{
    let ghost s = v@.subrange(from as int, to as int);
    let start: usize = if from < to && v[from] == '+' {
        from + 1
    } else {
        from
    };
    let ghost body = v@.subrange(start as int, to as int);
    proof {
        assert(body =~= if s.len() > 0 && s[0] == '+' {
            s.drop_first()
        } else {
            s
        });
    }
    if start == to {
        return None;
    }
    let mut i: usize = start;
    let mut acc: u64 = 0;
    while i < to
        invariant
            from <= start <= i <= to <= v@.len(),
            start < to,
            2 <= radix <= 16,
            s == v@.subrange(from as int, to as int),
            body == v@.subrange(start as int, to as int),
            acc <= max,
            i == start ==> acc == 0,
            i > start ==> digits_value(body.take(i - start), radix as nat) == Some(acc as nat),
            uint_value(s, radix as nat, max as nat) == (match digits_value(body, radix as nat) {
                Some(v) => if v <= max {
                    Some(v)
                } else {
                    None::<nat>
                },
                None => None::<nat>,
            }),
        decreases to - i,
    {
        let ghost k = i - start;
        let ghost pre = body.take(k + 1);
        proof {
            assert(pre.drop_last() =~= body.take(k));
            assert(pre.last() == v@[i as int]);
            if digits_value(body, radix as nat) is Some {
                lemma_prefix_bounds(body, k + 1, radix as nat);
            }
            assert(acc * radix + 16 <= u64::MAX * 16 + 16) by (nonlinear_arith)
                requires
                    acc <= u64::MAX,
                    0 <= radix <= 16,
            ;
            assert(0 <= acc * radix) by (nonlinear_arith)
                requires
                    0 <= acc,
                    0 <= radix,
            ;
        }
        match digit_of(v[i]) {
            None => {
                return None;
            },
            Some(d) => {
                if d >= radix {
                    return None;
                }
                let next: u128 = acc as u128 * radix as u128 + d as u128;
                proof {
                    if k == 0 {
                        assert(acc * radix == 0) by (nonlinear_arith)
                            requires
                                acc == 0,
                        ;
                    }
                    assert(digits_value(pre, radix as nat) == Some(next as nat));
                }
                if next > max as u128 {
                    return None;
                }
                acc = next as u64;
            },
        }
        i = i + 1;
    }
    proof {
        assert(body.take(to - start) =~= body);
    }
    Some(acc)
}

/// Parse a whole string as an unsigned integer in `radix`, at most `max`.
pub fn parse_uint_str(s: &str, radix: u8, max: u64) -> (r: Option<u64>)
    requires
        2 <= radix <= 16,
    ensures
        r is Some <==> uint_value(s@, radix as nat, max as nat) is Some,
        r matches Some(n) ==> n as nat == uint_value(s@, radix as nat, max as nat)->0,
{
    let v: Vec<char> = chars_of(s);
    proof {
        assert(v@.subrange(0, v@.len() as int) =~= s@);
    }
    parse_uint(&v, 0, v.len(), radix, max)
}

// ----------------------------------------------------------------------
// Laws
// ----------------------------------------------------------------------

proof fn lemma_hex_digit(d: int)
    requires
        0 <= d < 16,
    ensures
        digit_value(hex_digit(d)) == Some(d as nat),
{
}

/// Reading the decimal numeral of a number gives the number back.
pub proof fn dec_reads_back(n: nat)
    ensures
        digits_value(dec(n), 10) == Some(n),
        dec(n).len() >= 1,
        forall|i: int| 0 <= i < dec(n).len() ==> '0' <= #[trigger] dec(n)[i] <= '9',
    decreases n,
{
    lemma_hex_digit((n % 10) as int);
    if n >= 10 {
        dec_reads_back(n / 10);
        assert(dec(n).drop_last() =~= dec(n / 10));
    }
}

} // verus!
