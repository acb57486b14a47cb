//! A minimal JSON, good enough for Nostr frames.
//!
//! The writer escapes what NIP-01 mandates. The reader is a tolerant recursive descent over
//! the bytes of the text; each `take_*` function says what it makes of the bytes left, and
//! what is left after that.

use crate::crypto::hex_encode;
use crate::number::{decimal, u64_of, Number, NumberV};
use crate::text::{chars_of, dec, hex, hex_char, hex_digit, parse_uint, push_dec, push_text, string_from_utf8, text_of, uint_value};
use vstd::prelude::*;
use vstd::utf8::{decode_first_scalar, decode_utf8, length_of_first_scalar, pop_first_scalar, valid_first_scalar, valid_utf8};

verus! {

pub const QUOTE: u8 = 0x22;

pub const BACKSLASH: u8 = 0x5c;

pub const COMMA: u8 = 0x2c;

pub const COLON: u8 = 0x3a;

pub const OPEN_BRACKET: u8 = 0x5b;

pub const CLOSE_BRACKET: u8 = 0x5d;

pub const OPEN_BRACE: u8 = 0x7b;

pub const CLOSE_BRACE: u8 = 0x7d;

// ----------------------------------------------------------------------
// Values
// ----------------------------------------------------------------------

#[derive(Debug)]
pub enum Json {
    Null,
    Bool(bool),
    Num(Number),
    Str(String),
    Arr(Vec<Json>),
    Obj(Vec<(String, Json)>),
}

/// A JSON value by its contents.
pub enum JsonV {
    Null,
    Bool(bool),
    Num(NumberV),
    Str(Seq<char>),
    Arr(Seq<JsonV>),
    Obj(Map<Seq<char>, JsonV>),
}

pub open spec fn json_view(j: Json) -> JsonV
    decreases j,
{
    match j {
        Json::Null => JsonV::Null,
        Json::Bool(b) => JsonV::Bool(b),
        Json::Num(n) => JsonV::Num(n@),
        Json::Str(s) => JsonV::Str(s@),
        Json::Arr(v) => JsonV::Arr(items_view(v@)),
        Json::Obj(v) => JsonV::Obj(entries_view(v@)),
    }
}

pub open spec fn items_view(v: Seq<Json>) -> Seq<JsonV>
    decreases v,
{
    Seq::new(
        v.len(),
        |i: int|
            if 0 <= i < v.len() {
                json_view(v[i])
            } else {
                JsonV::Null
            },
    )
}

/// The members of an object; of two with one name, the last counts.
pub open spec fn entries_view(v: Seq<(String, Json)>) -> Map<Seq<char>, JsonV>
    decreases v,
{
    if v.len() == 0 {
        Map::empty()
    } else {
        entries_view(v.drop_last()).insert(v.last().0@, json_view(v.last().1))
    }
}

impl View for Json {
    type V = JsonV;

    open spec fn view(&self) -> JsonV {
        json_view(*self)
    }
}

fn dup_items(v: &Vec<Json>) -> (r: Vec<Json>)
    ensures
        items_view(r@) == items_view(v@),
    decreases v,
{
    let mut r: Vec<Json> = Vec::new();
    let mut i: usize = 0;
    while i < v.len()
        invariant
            i <= v@.len(),
            r@.len() == i,
            forall|k: int| 0 <= k < i ==> json_view(#[trigger] r@[k]) == json_view(v@[k]),
        decreases v@.len() - i,
    {
        r.push(v[i].dup());
        i = i + 1;
    }
    proof {
        assert(items_view(r@) =~= items_view(v@));
    }
    r
}

fn dup_entries(v: &Vec<(String, Json)>) -> (r: Vec<(String, Json)>)
    ensures
        entries_view(r@) == entries_view(v@),
    decreases v,
{
    let mut r: Vec<(String, Json)> = Vec::new();
    let mut i: usize = 0;
    proof {
        assert(r@ =~= Seq::empty());
        assert(v@.take(0) =~= Seq::empty());
    }
    while i < v.len()
        invariant
            i <= v@.len(),
            entries_view(r@) == entries_view(v@.take(i as int)),
        decreases v@.len() - i,
    {
        let ghost before = r@;
        r.push((text_of(v[i].0.as_str()), v[i].1.dup()));
        proof {
            assert(r@.drop_last() =~= before);
            assert(v@.take(i + 1).drop_last() =~= v@.take(i as int));
        }
        i = i + 1;
    }
    proof {
        assert(v@.take(i as int) =~= v@);
    }
    r
}

impl Json {
    /// A copy of the value.
    pub fn dup(&self) -> (r: Json)
        ensures
            r@ == self@,
        decreases self,
    {
        match self {
            Json::Null => Json::Null,
            Json::Bool(b) => Json::Bool(*b),
            Json::Num(n) => Json::Num(n.dup()),
            Json::Str(s) => Json::Str(text_of(s.as_str())),
            Json::Arr(v) => Json::Arr(dup_items(v)),
            Json::Obj(v) => Json::Obj(dup_entries(v)),
        }
    }
}

impl Clone for Json {
    fn clone(&self) -> (r: Json)
        ensures
            r@ == self@,
    {
        self.dup()
    }
}

// ----------------------------------------------------------------------
// Writing
// ----------------------------------------------------------------------

/// A character inside a string literal.
pub open spec fn escaped(c: char) -> Seq<char> {
    if c == '"' {
        seq!['\\', '"']
    } else if c == '\\' {
        seq!['\\', '\\']
    } else if c == '\n' {
        seq!['\\', 'n']
    } else if c == '\r' {
        seq!['\\', 'r']
    } else if c == '\t' {
        seq!['\\', 't']
    } else if c as u32 == 8 {
        seq!['\\', 'b']
    } else if c as u32 == 12 {
        seq!['\\', 'f']
    } else if (c as u32) < 0x20 {
        seq!['\\', 'u', '0', '0', hex_digit(c as int / 16), hex_digit(c as int % 16)]
    } else {
        seq![c]
    }
}

pub open spec fn escaped_all(s: Seq<char>) -> Seq<char>
    decreases s.len(),
{
    if s.len() == 0 {
        Seq::empty()
    } else {
        escaped(s[0]) + escaped_all(s.drop_first())
    }
}

/// A string literal.
pub open spec fn quoted(s: Seq<char>) -> Seq<char> {
    seq!['"'] + escaped_all(s) + seq!['"']
}

/// Texts with commas between them.
pub open spec fn comma_list(t: Seq<Seq<char>>) -> Seq<char>
    decreases t.len(),
{
    if t.len() == 0 {
        Seq::empty()
    } else if t.len() == 1 {
        t[0]
    } else {
        t[0] + (seq![','] + comma_list(t.drop_first()))
    }
}

/// A member of an object: its name, and the text of its value.
pub open spec fn member_json(name: Seq<char>, value: Seq<char>) -> Seq<char> {
    quoted(name) + (seq![':'] + value)
}

pub open spec fn members_json(ms: Seq<(Seq<char>, Seq<char>)>) -> Seq<char>
    decreases ms.len(),
{
    if ms.len() == 0 {
        Seq::empty()
    } else if ms.len() == 1 {
        member_json(ms[0].0, ms[0].1)
    } else {
        member_json(ms[0].0, ms[0].1) + (seq![','] + members_json(ms.drop_first()))
    }
}

/// An object.
pub open spec fn object_json(ms: Seq<(Seq<char>, Seq<char>)>) -> Seq<char> {
    seq!['{'] + members_json(ms) + seq!['}']
}

/// The strings of one tag, with commas between them.
pub open spec fn quoted_list(t: Seq<Seq<char>>) -> Seq<char>
    decreases t.len(),
{
    if t.len() == 0 {
        Seq::empty()
    } else if t.len() == 1 {
        quoted(t[0])
    } else {
        quoted(t[0]) + (seq![','] + quoted_list(t.drop_first()))
    }
}

pub open spec fn bracketed(s: Seq<char>) -> Seq<char> {
    seq!['['] + s + seq![']']
}

pub open spec fn tag_list(ts: Seq<Seq<Seq<char>>>) -> Seq<char>
    decreases ts.len(),
{
    if ts.len() == 0 {
        Seq::empty()
    } else if ts.len() == 1 {
        bracketed(quoted_list(ts[0]))
    } else {
        bracketed(quoted_list(ts[0])) + (seq![','] + tag_list(ts.drop_first()))
    }
}

/// The tags of an event: a list of lists of strings.
pub open spec fn tags_json(ts: Seq<Seq<Seq<char>>>) -> Seq<char> {
    bracketed(tag_list(ts))
}

/// A list of strings by its contents.
pub open spec fn texts(v: Seq<String>) -> Seq<Seq<char>> {
    Seq::new(v.len(), |i: int| v[i]@)
}

/// Tags by their contents.
pub open spec fn tags_view(v: Seq<Vec<String>>) -> Seq<Seq<Seq<char>>> {
    Seq::new(v.len(), |i: int| texts(v[i]@))
}

fn push_escaped(out: &mut String, c: char)
    ensures
        final(out)@ == old(out)@ + escaped(c),
{
    let n: u32 = c as u32;
    if c == '"' {
        out.push('\\');
        out.push('"');
    } else if c == '\\' {
        out.push('\\');
        out.push('\\');
    } else if c == '\n' {
        out.push('\\');
        out.push('n');
    } else if c == '\r' {
        out.push('\\');
        out.push('r');
    } else if c == '\t' {
        out.push('\\');
        out.push('t');
    } else if n == 8 {
        out.push('\\');
        out.push('b');
    } else if n == 12 {
        out.push('\\');
        out.push('f');
    } else if n < 0x20 {
        out.push('\\');
        out.push('u');
        out.push('0');
        out.push('0');
        out.push(hex_char((n / 16) as u8));
        out.push(hex_char((n % 16) as u8));
    } else {
        out.push(c);
    }
    proof {
        assert(out@ =~= old(out)@ + escaped(c));
    }
}

/// Write a JSON string literal with the escaping NIP-01 mandates.
pub fn write_string(out: &mut String, s: &str)
    ensures
        final(out)@ == old(out)@ + quoted(s@),
{
    let v: Vec<char> = chars_of(s);
    out.push('"');
    let ghost base = out@;
    let mut i: usize = 0;
    proof {
        assert(v@.skip(0) =~= v@);
    }
    while i < v.len()
        invariant
            i <= v@.len(),
            out@ + escaped_all(v@.skip(i as int)) == base + escaped_all(v@),
        decreases v@.len() - i,
    {
        let ghost before = out@;
        push_escaped(out, v[i]);
        proof {
            let rest = v@.skip(i as int);
            assert(rest.drop_first() =~= v@.skip(i + 1));
            assert(out@ + escaped_all(v@.skip(i + 1)) =~= before + escaped_all(rest));
        }
        i = i + 1;
    }
    proof {
        assert(out@ + escaped_all(v@.skip(i as int)) =~= out@);
    }
    out.push('"');
    proof {
        assert(out@ =~= old(out)@ + quoted(s@));
    }
}

/// Write strings with commas between them.
pub fn write_list(out: &mut String, t: &Vec<String>)
    ensures
        final(out)@ == old(out)@ + quoted_list(texts(t@)),
{
    let ghost all = texts(t@);
    let mut i: usize = 0;
    proof {
        assert(all.skip(0) =~= all);
    }
    while i < t.len()
        invariant
            i <= t@.len(),
            all == texts(t@),
            out@ + (if i == 0 || i == all.len() {
                quoted_list(all.skip(i as int))
            } else {
                seq![','] + quoted_list(all.skip(i as int))
            }) == old(out)@ + quoted_list(all),
        decreases t@.len() - i,
    {
        let ghost before = out@;
        let ghost rest = all.skip(i as int);
        if i > 0 {
            out.push(',');
        }
        write_string(out, t[i].as_str());
        proof {
            assert(rest.drop_first() =~= all.skip(i + 1));
            assert(rest[0] == t@[i as int]@);
            assert(out@ + (if i + 1 == all.len() {
                quoted_list(all.skip(i + 1))
            } else {
                seq![','] + quoted_list(all.skip(i + 1))
            }) =~= before + (if i == 0 {
                quoted_list(rest)
            } else {
                seq![','] + quoted_list(rest)
            }));
        }
        i = i + 1;
    }
    proof {
        assert(out@ + quoted_list(all.skip(i as int)) =~= out@);
    }
}

pub fn write_tags(out: &mut String, tags: &Vec<Vec<String>>)
    ensures
        final(out)@ == old(out)@ + tags_json(tags_view(tags@)),
{
    let ghost all = tags_view(tags@);
    out.push('[');
    let ghost base = out@;
    let mut i: usize = 0;
    proof {
        assert(all.skip(0) =~= all);
    }
    while i < tags.len()
        invariant
            i <= tags@.len(),
            all == tags_view(tags@),
            out@ + (if i == 0 || i == all.len() {
                tag_list(all.skip(i as int))
            } else {
                seq![','] + tag_list(all.skip(i as int))
            }) == base + tag_list(all),
        decreases tags@.len() - i,
    {
        let ghost before = out@;
        let ghost rest = all.skip(i as int);
        if i > 0 {
            out.push(',');
        }
        out.push('[');
        write_list(out, &tags[i]);
        out.push(']');
        proof {
            assert(rest.drop_first() =~= all.skip(i + 1));
            assert(rest[0] == texts(tags@[i as int]@));
            assert(out@ + (if i + 1 == all.len() {
                tag_list(all.skip(i + 1))
            } else {
                seq![','] + tag_list(all.skip(i + 1))
            }) =~= before + (if i == 0 {
                tag_list(rest)
            } else {
                seq![','] + tag_list(rest)
            }));
        }
        i = i + 1;
    }
    proof {
        assert(out@ + tag_list(all.skip(i as int)) =~= out@);
    }
    out.push(']');
    proof {
        assert(out@ =~= old(out)@ + tags_json(tags_view(tags@)));
    }
}

/// Write the first member of an object, behind the opening brace.
pub fn first_member(out: &mut String, name: &str, value: &str)
    ensures
        final(out)@ == old(out)@ + (seq!['{'] + member_json(name@, value@)),
{
    out.push('{');
    write_string(out, name);
    out.push(':');
    push_text(out, value);
    proof {
        assert(out@ =~= old(out)@ + (seq!['{'] + member_json(name@, value@)));
    }
}

/// Write another member of an object, behind a comma.
pub fn next_member(out: &mut String, name: &str, value: &str)
    ensures
        final(out)@ == (old(out)@ + seq![',']) + member_json(name@, value@),
{
    out.push(',');
    write_string(out, name);
    out.push(':');
    push_text(out, value);
    proof {
        assert(out@ =~= (old(out)@ + seq![',']) + member_json(name@, value@));
    }
}

/// A comma and a member, appended to what stands behind the opening brace.
pub proof fn member_joins(p: Seq<char>, m: Seq<char>)
    ensures
        ((seq!['{'] + p) + seq![',']) + m == seq!['{'] + ((p + seq![',']) + m),
{
    assert(((seq!['{'] + p) + seq![',']) + m =~= seq!['{'] + ((p + seq![',']) + m));
}

pub fn quoted_text(s: &str) -> (r: String)
    ensures
        r@ == quoted(s@),
{
    let mut out = String::new();
    write_string(&mut out, s);
    proof {
        assert(out@ =~= quoted(s@));
    }
    out
}

pub fn quoted_hex(b: &[u8]) -> (r: String)
    ensures
        r@ == quoted(hex(b@)),
{
    let h: String = hex_encode(b);
    quoted_text(h.as_str())
}

pub fn number_text(n: u64) -> (r: String)
    ensures
        r@ == dec(n as nat),
{
    let mut out = String::new();
    push_dec(&mut out, n);
    proof {
        assert(out@ =~= dec(n as nat));
    }
    out
}

pub fn tags_text(tags: &Vec<Vec<String>>) -> (r: String)
    ensures
        r@ == tags_json(tags_view(tags@)),
{
    let mut out = String::new();
    write_tags(&mut out, tags);
    proof {
        assert(out@ =~= tags_json(tags_view(tags@)));
    }
    out
}

/// Seven members, spelled out.
pub proof fn seven_members(ms: Seq<(Seq<char>, Seq<char>)>)
    requires
        ms.len() == 7,
    ensures
        members_json(ms) == member_json(ms[0].0, ms[0].1) + seq![','] + member_json(ms[1].0, ms[1].1) + seq![','] + member_json(
            ms[2].0,
            ms[2].1,
        ) + seq![','] + member_json(ms[3].0, ms[3].1) + seq![','] + member_json(ms[4].0, ms[4].1) + seq![','] + member_json(
            ms[5].0,
            ms[5].1,
        ) + seq![','] + member_json(ms[6].0, ms[6].1),
{
    let m1 = ms.drop_first();
    six_members(m1);
    assert(members_json(ms) =~= member_json(ms[0].0, ms[0].1) + seq![','] + member_json(ms[1].0, ms[1].1) + seq![
        ',',
    ] + member_json(ms[2].0, ms[2].1) + seq![','] + member_json(ms[3].0, ms[3].1) + seq![','] + member_json(
        ms[4].0,
        ms[4].1,
    ) + seq![','] + member_json(ms[5].0, ms[5].1) + seq![','] + member_json(ms[6].0, ms[6].1));
}

/// Six members, spelled out.
pub proof fn six_members(ms: Seq<(Seq<char>, Seq<char>)>)
    requires
        ms.len() == 6,
    ensures
        members_json(ms) == member_json(ms[0].0, ms[0].1) + seq![','] + member_json(ms[1].0, ms[1].1) + seq![','] + member_json(
            ms[2].0,
            ms[2].1,
        ) + seq![','] + member_json(ms[3].0, ms[3].1) + seq![','] + member_json(ms[4].0, ms[4].1) + seq![','] + member_json(
            ms[5].0,
            ms[5].1,
        ),
{
    let m1 = ms.drop_first();
    let m2 = m1.drop_first();
    let m3 = m2.drop_first();
    let m4 = m3.drop_first();
    let m5 = m4.drop_first();
    assert(m1[0] == ms[1] && m2[0] == ms[2] && m3[0] == ms[3] && m4[0] == ms[4] && m5[0] == ms[5]);
    assert(members_json(m5) == member_json(ms[5].0, ms[5].1));
    assert(members_json(m4) == member_json(ms[4].0, ms[4].1) + (seq![','] + members_json(m5)));
    assert(members_json(m3) == member_json(ms[3].0, ms[3].1) + (seq![','] + members_json(m4)));
    assert(members_json(m2) == member_json(ms[2].0, ms[2].1) + (seq![','] + members_json(m3)));
    assert(members_json(m1) == member_json(ms[1].0, ms[1].1) + (seq![','] + members_json(m2)));
    assert(members_json(ms) == member_json(ms[0].0, ms[0].1) + (seq![','] + members_json(m1)));
    assert(members_json(ms) =~= member_json(ms[0].0, ms[0].1) + seq![','] + member_json(ms[1].0, ms[1].1) + seq![
        ',',
    ] + member_json(ms[2].0, ms[2].1) + seq![','] + member_json(ms[3].0, ms[3].1) + seq![','] + member_json(
        ms[4].0,
        ms[4].1,
    ) + seq![','] + member_json(ms[5].0, ms[5].1));
}

// ----------------------------------------------------------------------
// Reading: what the bytes mean
// ----------------------------------------------------------------------

pub open spec fn is_blank(c: u8) -> bool {
    c == 0x20 || c == 0x09 || c == 0x0a || c == 0x0d
}

pub open spec fn skip_blank(s: Seq<u8>) -> Seq<u8>
    decreases s.len(),
{
    if s.len() > 0 && is_blank(s[0]) {
        skip_blank(s.drop_first())
    } else {
        s
    }
}

/// Bytes as characters, one for one.
pub open spec fn latin(s: Seq<u8>) -> Seq<char> {
    Seq::new(s.len(), |i: int| s[i] as char)
}

/// The character of a code point, or the replacement character where there is none.
pub open spec fn char_at(cp: nat) -> char {
    if cp < 0xD800 || 0xE000 <= cp <= 0x10FFFF {
        cp as char
    } else {
        0xFFFD as char
    }
}

/// The character that a one-letter escape stands for.
pub open spec fn unescaped(e: u8) -> Option<char> {
    if e == QUOTE {
        Some('"')
    } else if e == BACKSLASH {
        Some('\\')
    } else if e == 0x2f {
        Some('/')
    } else if e == 0x6e {
        Some('\n')
    } else if e == 0x72 {
        Some('\r')
    } else if e == 0x74 {
        Some('\t')
    } else if e == 0x62 {
        Some(8u8 as char)
    } else if e == 0x66 {
        Some(12u8 as char)
    } else {
        None
    }
}

/// The rest of a string literal, up to its closing quote. What is not escaped passes through as
/// the UTF-8 text that it is.
pub open spec fn take_chars(s: Seq<u8>) -> Option<(Seq<char>, Seq<u8>)>
    decreases s.len(),
{
    if s.len() == 0 {
        None
    } else if s[0] == QUOTE {
        Some((Seq::empty(), s.skip(1)))
    } else if s[0] != BACKSLASH {
        if valid_first_scalar(s) {
            match take_chars(s.skip(length_of_first_scalar(s))) {
                Some((cs, rest)) => Some((seq![decode_first_scalar(s) as char] + cs, rest)),
                None => None,
            }
        } else {
            None
        }
    } else if s.len() < 2 {
        None
    } else if s[1] == 0x75 {
        if s.len() < 6 {
            None
        } else {
            match uint_value(latin(s.subrange(2, 6)), 16, u32::MAX as nat) {
                Some(cp) => match take_chars(s.skip(6)) {
                    Some((cs, rest)) => Some((seq![char_at(cp)] + cs, rest)),
                    None => None,
                },
                None => None,
            }
        }
    } else {
        match unescaped(s[1]) {
            Some(c) => match take_chars(s.skip(2)) {
                Some((cs, rest)) => Some((seq![c] + cs, rest)),
                None => None,
            },
            None => None,
        }
    }
}

/// A string literal; whatever stands first is taken for its opening quote.
pub open spec fn take_string(s: Seq<u8>) -> Option<(Seq<char>, Seq<u8>)> {
    if s.len() == 0 {
        None
    } else {
        take_chars(s.skip(1))
    }
}

pub open spec fn is_digit(c: u8) -> bool {
    0x30 <= c <= 0x39
}

pub open spec fn in_number(c: u8) -> bool {
    is_digit(c) || c == 0x2d || c == 0x2b || c == 0x2e || c == 0x65 || c == 0x45
}

/// How many bytes in a row can belong to a number.
pub open spec fn number_len(s: Seq<u8>) -> nat
    decreases s.len(),
{
    if s.len() > 0 && in_number(s[0]) {
        1 + number_len(s.drop_first())
    } else {
        0
    }
}

/// How many digits stand in a row.
pub open spec fn digits_len(s: Seq<u8>) -> nat
    decreases s.len(),
{
    if s.len() > 0 && is_digit(s[0]) {
        1 + digits_len(s.drop_first())
    } else {
        0
    }
}

/// The values of a row of digits.
pub open spec fn digits_of(s: Seq<u8>) -> Seq<u8> {
    Seq::new(s.len(), |i: int| (s[i] - 0x30) as u8)
}

pub open spec fn signed(s: Seq<u8>) -> bool {
    s.len() > 0 && (s[0] == 0x2b || s[0] == 0x2d)
}

/// The sign of a number and what follows it.
pub open spec fn unsign(s: Seq<u8>) -> (bool, Seq<u8>) {
    if signed(s) {
        (s[0] == 0x2d, s.skip(1))
    } else {
        (false, s)
    }
}

/// The exponent at the end of a number: nothing, or an `e`, an optional sign and digits.
pub open spec fn exponent_parts(s: Seq<u8>) -> Option<(bool, Seq<u8>)> {
    if s.len() == 0 {
        Some((false, Seq::empty()))
    } else if s[0] != 0x65 && s[0] != 0x45 {
        None
    } else {
        let (neg, digits) = unsign(s.skip(1));
        if digits.len() == 0 || digits_len(digits) != digits.len() {
            None
        } else {
            Some((neg, digits_of(digits)))
        }
    }
}

/// The digits after the point, if there is a point, and what follows them.
pub open spec fn fraction(s: Seq<u8>) -> (Seq<u8>, Seq<u8>) {
    if s.len() > 0 && s[0] == 0x2e {
        let t = s.skip(1);
        (t.take(digits_len(t) as int), t.skip(digits_len(t) as int))
    } else {
        (Seq::empty(), s)
    }
}

/// The parts of a decimal floating point literal: an optional sign, digits with a point among
/// them or not (at least one digit in all), and an optional exponent.
pub open spec fn number_parts(text: Seq<u8>) -> Option<NumberV> {
    let (neg, s) = unsign(text);
    let whole = s.take(digits_len(s) as int);
    let (frac, tail) = fraction(s.skip(digits_len(s) as int));
    if whole.len() + frac.len() == 0 {
        None
    } else {
        match exponent_parts(tail) {
            Some((exp_neg, exp)) => Some(
                NumberV { neg, whole: digits_of(whole), frac: digits_of(frac), exp_neg, exp },
            ),
            None => None,
        }
    }
}

pub open spec fn take_number(s: Seq<u8>) -> Option<(NumberV, Seq<u8>)> {
    match number_parts(s.take(number_len(s) as int)) {
        Some(n) => Some((n, s.skip(number_len(s) as int))),
        None => None,
    }
}

pub open spec fn starts_with(s: Seq<u8>, word: Seq<u8>) -> bool {
    s.len() >= word.len() && s.take(word.len() as int) == word
}

pub open spec fn word_true() -> Seq<u8> {
    seq![0x74u8, 0x72, 0x75, 0x65]
}

pub open spec fn word_false() -> Seq<u8> {
    seq![0x66u8, 0x61, 0x6c, 0x73, 0x65]
}

pub open spec fn word_null() -> Seq<u8> {
    seq![0x6eu8, 0x75, 0x6c, 0x6c]
}

pub open spec fn take_word(s: Seq<u8>, word: Seq<u8>, val: JsonV) -> Option<(JsonV, Seq<u8>)> {
    if starts_with(s, word) {
        Some((val, s.skip(word.len() as int)))
    } else {
        None
    }
}

/// A value, with blanks before it.
pub open spec fn take_value(s: Seq<u8>) -> Option<(JsonV, Seq<u8>)>
    decreases s.len(), 0int,
{
    proof {
        blank_shrinks(s);
        blank_shrinks(skip_blank(s).skip(1));
    }
    let t = skip_blank(s);
    if t.len() == 0 {
        None
    } else if t[0] == OPEN_BRACE {
        let u = skip_blank(t.skip(1));
        if u.len() == 0 {
            None
        } else if u[0] == CLOSE_BRACE {
            Some((JsonV::Obj(Map::empty()), u.skip(1)))
        } else {
            match take_entries(u, Map::empty()) {
                Some((m, rest)) => Some((JsonV::Obj(m), rest)),
                None => None,
            }
        }
    } else if t[0] == OPEN_BRACKET {
        let u = skip_blank(t.skip(1));
        if u.len() == 0 {
            None
        } else if u[0] == CLOSE_BRACKET {
            Some((JsonV::Arr(Seq::empty()), u.skip(1)))
        } else {
            match take_items(u, Seq::empty()) {
                Some((xs, rest)) => Some((JsonV::Arr(xs), rest)),
                None => None,
            }
        }
    } else if t[0] == QUOTE {
        match take_string(t) {
            Some((cs, rest)) => Some((JsonV::Str(cs), rest)),
            None => None,
        }
    } else if t[0] == 0x74 {
        take_word(t, word_true(), JsonV::Bool(true))
    } else if t[0] == 0x66 {
        take_word(t, word_false(), JsonV::Bool(false))
    } else if t[0] == 0x6e {
        take_word(t, word_null(), JsonV::Null)
    } else {
        match take_number(t) {
            Some((n, rest)) => Some((JsonV::Num(n), rest)),
            None => None,
        }
    }
}

/// The items of an array from the next one on, up to the closing bracket, behind those already
/// taken.
pub open spec fn take_items(s: Seq<u8>, taken: Seq<JsonV>) -> Option<(Seq<JsonV>, Seq<u8>)>
    decreases s.len(), 1int,
{
    match take_value(s) {
        None => None,
        Some((v, r)) => {
            let u = skip_blank(r);
            proof {
                blank_shrinks(r);
            }
            if r.len() >= s.len() || u.len() == 0 {
                None
            } else if u[0] == COMMA {
                take_items(u.skip(1), taken.push(v))
            } else if u[0] == CLOSE_BRACKET {
                Some((taken.push(v), u.skip(1)))
            } else {
                None
            }
        },
    }
}

/// The members of an object from the next one on, up to the closing brace, together with those
/// already taken.
pub open spec fn take_entries(s: Seq<u8>, taken: Map<Seq<char>, JsonV>) -> Option<(Map<Seq<char>, JsonV>, Seq<u8>)>
    decreases s.len(), 1int,
{
    proof {
        blank_shrinks(s);
    }
    match take_string(skip_blank(s)) {
        None => None,
        Some((key, r1)) => {
            let r2 = skip_blank(r1);
            proof {
                blank_shrinks(r1);
            }
            if r1.len() >= s.len() || r2.len() == 0 || r2[0] != COLON {
                None
            } else {
                match take_value(r2.skip(1)) {
                    None => None,
                    Some((val, r3)) => {
                        let r4 = skip_blank(r3);
                        proof {
                            blank_shrinks(r3);
                        }
                        if r3.len() >= s.len() || r4.len() == 0 {
                            None
                        } else if r4[0] == COMMA {
                            take_entries(r4.skip(1), taken.insert(key, val))
                        } else if r4[0] == CLOSE_BRACE {
                            Some((taken.insert(key, val), r4.skip(1)))
                        } else {
                            None
                        }
                    },
                }
            }
        },
    }
}

/// The value a text begins with; what follows it is not looked at.
pub open spec fn json_of(text: Seq<u8>) -> Option<JsonV> {
    match take_value(text) {
        Some((v, rest)) => Some(v),
        None => None,
    }
}

pub proof fn blank_shrinks(s: Seq<u8>)
    ensures
        skip_blank(s).len() <= s.len(),
        skip_blank(s) == s.skip(s.len() - skip_blank(s).len()),
        skip_blank(s).len() > 0 ==> !is_blank(skip_blank(s)[0]),
    decreases s.len(),
{
    if s.len() > 0 && is_blank(s[0]) {
        blank_shrinks(s.drop_first());
        assert(s.drop_first().skip(s.drop_first().len() - skip_blank(s).len()) =~= s.skip(
            s.len() - skip_blank(s).len(),
        ));
    } else {
        assert(s.skip(0) =~= s);
    }
}

proof fn chars_shrink(s: Seq<u8>)
    ensures
        take_chars(s) matches Some((cs, rest)) ==> rest.len() < s.len(),
    decreases s.len(),
{
    if s.len() > 0 && s[0] != QUOTE {
        if s[0] != BACKSLASH {
            if valid_first_scalar(s) {
                chars_shrink(s.skip(length_of_first_scalar(s)));
            }
        } else if s.len() >= 2 {
            if s[1] == 0x75 {
                if s.len() >= 6 {
                    chars_shrink(s.skip(6));
                }
            } else {
                chars_shrink(s.skip(2));
            }
        }
    }
}

proof fn string_shrinks(s: Seq<u8>)
    ensures
        take_string(s) matches Some((cs, rest)) ==> rest.len() < s.len(),
{
    if s.len() > 0 {
        chars_shrink(s.skip(1));
    }
}

pub proof fn number_len_bound(s: Seq<u8>)
    ensures
        number_len(s) <= s.len(),
    decreases s.len(),
{
    if s.len() > 0 && in_number(s[0]) {
        number_len_bound(s.drop_first());
    }
}

proof fn number_shrinks(s: Seq<u8>)
    ensures
        take_number(s) matches Some((n, rest)) ==> rest.len() < s.len(),
{
    number_len_bound(s);
    if number_len(s) == 0 {
        let text = s.take(0);
        assert(digits_len(unsign(text).1) == 0);
        assert(number_parts(text) is None);
    }
}

/// A value takes at least one byte.
pub proof fn value_shrinks(s: Seq<u8>)
    ensures
        take_value(s) matches Some((v, rest)) ==> rest.len() < s.len(),
    decreases s.len(), 0int,
{
    blank_shrinks(s);
    let t = skip_blank(s);
    if t.len() > 0 {
        blank_shrinks(t.skip(1));
        let u = skip_blank(t.skip(1));
        if u.len() > 0 {
            items_shrink(u, Seq::empty());
            entries_shrink(u, Map::empty());
        }
        string_shrinks(t);
        number_shrinks(t);
    }
}

proof fn items_shrink(s: Seq<u8>, taken: Seq<JsonV>)
    ensures
        take_items(s, taken) matches Some((xs, rest)) ==> rest.len() < s.len(),
    decreases s.len(), 1int,
{
    match take_value(s) {
        None => {},
        Some((v, r)) => {
            blank_shrinks(r);
            let u = skip_blank(r);
            if r.len() < s.len() && u.len() > 0 && u[0] == COMMA {
                items_shrink(u.skip(1), taken.push(v));
            }
        },
    }
}

proof fn entries_shrink(s: Seq<u8>, taken: Map<Seq<char>, JsonV>)
    ensures
        take_entries(s, taken) matches Some((m, rest)) ==> rest.len() < s.len(),
    decreases s.len(), 1int,
{
    blank_shrinks(s);
    match take_string(skip_blank(s)) {
        None => {},
        Some((key, r1)) => {
            let r2 = skip_blank(r1);
            blank_shrinks(r1);
            if r1.len() < s.len() && r2.len() > 0 && r2[0] == COLON {
                match take_value(r2.skip(1)) {
                    None => {},
                    Some((val, r3)) => {
                        let r4 = skip_blank(r3);
                        blank_shrinks(r3);
                        if r3.len() < s.len() && r4.len() > 0 && r4[0] == COMMA {
                            entries_shrink(r4.skip(1), taken.insert(key, val));
                        }
                    },
                }
            }
        },
    }
}

// ----------------------------------------------------------------------
// Reading
// ----------------------------------------------------------------------

/// Where the row of digits that begins at `from` ends.
fn digits_end(b: &[u8], from: usize, to: usize) -> (r: usize)
    requires
        from <= to <= b@.len(),
    ensures
        from <= r <= to,
        r - from == digits_len(b@.subrange(from as int, to as int)),
        forall|i: int| from <= i < r ==> is_digit(#[trigger] b@[i]),
{
    let mut i: usize = from;
    while i < to && 0x30 <= b[i] && b[i] <= 0x39
        invariant
            from <= i <= to <= b@.len(),
            (i - from) + digits_len(b@.subrange(i as int, to as int)) == digits_len(
                b@.subrange(from as int, to as int),
            ),
            forall|j: int| from <= j < i ==> is_digit(#[trigger] b@[j]),
        decreases to - i,
    {
        proof {
            assert(b@.subrange(i as int, to as int).drop_first() =~= b@.subrange(i + 1, to as int));
        }
        i = i + 1;
    }
    i
}

/// The values of the digits `b[from..to]`.
fn copy_digits(b: &[u8], from: usize, to: usize) -> (r: Vec<u8>)
    requires
        from <= to <= b@.len(),
        forall|i: int| from <= i < to ==> is_digit(#[trigger] b@[i]),
    ensures
        r@ == digits_of(b@.subrange(from as int, to as int)),
        decimal(r@),
{
    let mut r: Vec<u8> = Vec::new();
    let mut i: usize = from;
    while i < to
        invariant
            from <= i <= to <= b@.len(),
            forall|j: int| from <= j < to ==> is_digit(#[trigger] b@[j]),
            r@.len() == i - from,
            decimal(r@),
            forall|j: int| 0 <= j < r@.len() ==> #[trigger] r@[j] == (b@[from + j] - 0x30) as u8,
        decreases to - i,
    {
        proof {
            assert(is_digit(b@[i as int]));
        }
        r.push(b[i] - 0x30);
        i = i + 1;
    }
    proof {
        assert(r@ =~= digits_of(b@.subrange(from as int, to as int)));
    }
    r
}

/// The exponent `b[from..to]`.
fn parse_exponent(b: &[u8], from: usize, to: usize) -> (r: Option<(bool, Vec<u8>)>)
    requires
        from <= to <= b@.len(),
    ensures
        match exponent_parts(b@.subrange(from as int, to as int)) {
            Some((neg, digits)) => r is Some && (r->0).0 == neg && (r->0).1@ == digits && decimal((r->0).1@),
            None => r is None,
        },
{
    let ghost s = b@.subrange(from as int, to as int);
    if from == to {
        let empty: Vec<u8> = Vec::new();
        proof {
            assert(empty@ =~= Seq::<u8>::empty());
        }
        return Some((false, empty));
    }
    if b[from] != 0x65 && b[from] != 0x45 {
        return None;
    }
    let mut k: usize = from + 1;
    proof {
        assert(s.skip(1) =~= b@.subrange(from + 1, to as int));
    }
    let mut neg: bool = false;
    if k < to && (b[k] == 0x2b || b[k] == 0x2d) {
        neg = b[k] == 0x2d;
        k = k + 1;
    }
    proof {
        assert(unsign(s.skip(1)).1 =~= b@.subrange(k as int, to as int));
    }
    let end: usize = digits_end(b, k, to);
    if end == k || end != to {
        return None;
    }
    Some((neg, copy_digits(b, k, to)))
}

/// Where the digits after the point begin and end, if `b[from..to]` begins with a point.
fn fraction_bounds(b: &[u8], from: usize, to: usize) -> (r: (usize, usize))
    requires
        from <= to <= b@.len(),
    ensures
        from <= r.0 <= r.1 <= to,
        fraction(b@.subrange(from as int, to as int)).0 == b@.subrange(r.0 as int, r.1 as int),
        fraction(b@.subrange(from as int, to as int)).1 == b@.subrange(r.1 as int, to as int),
        forall|i: int| r.0 <= i < r.1 ==> is_digit(#[trigger] b@[i]),
{
    let ghost s = b@.subrange(from as int, to as int);
    if from < to && b[from] == 0x2e {
        proof {
            assert(s.skip(1) =~= b@.subrange(from + 1, to as int));
        }
        let end: usize = digits_end(b, from + 1, to);
        proof {
            let t = s.skip(1);
            let m = end - (from + 1);
            assert(t.take(m) =~= b@.subrange(from + 1, end as int));
            assert(t.skip(m) =~= b@.subrange(end as int, to as int));
        }
        (from + 1, end)
    } else {
        proof {
            assert(b@.subrange(from as int, from as int) =~= Seq::<u8>::empty());
        }
        (from, from)
    }
}

/// The parts of the number literal `b[from..to]`.
fn parse_number(b: &[u8], from: usize, to: usize) -> (r: Option<Number>)
    requires
        from <= to <= b@.len(),
    ensures
        r is Some <==> number_parts(b@.subrange(from as int, to as int)) is Some,
        r matches Some(n) ==> number_parts(b@.subrange(from as int, to as int)) == Some(n@),
{
    let ghost text = b@.subrange(from as int, to as int);
    let mut i: usize = from;
    let mut neg: bool = false;
    if i < to && (b[i] == 0x2b || b[i] == 0x2d) {
        neg = b[i] == 0x2d;
        i = i + 1;
    }
    let ghost s = b@.subrange(i as int, to as int);
    proof {
        assert(unsign(text).1 =~= s);
        assert(unsign(text).0 == neg);
    }
    let mid: usize = digits_end(b, i, to);
    proof {
        assert(s.take(mid - i) =~= b@.subrange(i as int, mid as int));
        assert(s.skip(mid - i) =~= b@.subrange(mid as int, to as int));
    }
    let f: (usize, usize) = fraction_bounds(b, mid, to);
    if mid == i && f.0 == f.1 {
        return None;
    }
    let whole: Vec<u8> = copy_digits(b, i, mid);
    let frac: Vec<u8> = copy_digits(b, f.0, f.1);
    match parse_exponent(b, f.1, to) {
        Some(e) => Some(Number::new(neg, whole, frac, e.0, e.1)),
        None => None,
    }
}

struct Parser<'a> {
    b: &'a [u8],
    i: usize,
}

impl<'a> View for Parser<'a> {
    type V = Seq<u8>;

    closed spec fn view(&self) -> Seq<u8> {
        self.b@.skip(self.i as int)
    }
}

impl<'a> Parser<'a> {
    spec fn wf(&self) -> bool {
        self.i <= self.b@.len()
    }

    /// Step over blanks.
    fn ws(&mut self)
        requires
            old(self).wf(),
        ensures
            final(self).wf(),
            final(self)@ == skip_blank(old(self)@),
            final(self).b == old(self).b,
    {
        while self.i < self.b.len() && (self.b[self.i] == 0x20 || self.b[self.i] == 0x09 || self.b[self.i] == 0x0a
            || self.b[self.i] == 0x0d)
            invariant
                self.wf(),
                self.b == old(self).b,
                skip_blank(self@) == skip_blank(old(self)@),
            decreases self.b@.len() - self.i,
        {
            proof {
                assert(self@.drop_first() =~= self.b@.skip(self.i + 1));
            }
            self.i = self.i + 1;
        }
    }

    /// The next byte.
    fn peek(&self) -> (r: Option<u8>)
        requires
            self.wf(),
        ensures
            r == (if self@.len() > 0 {
                Some(self@[0])
            } else {
                None
            }),
    {
        if self.i < self.b.len() {
            Some(self.b[self.i])
        } else {
            None
        }
    }

    /// Step over one byte.
    fn step(&mut self)
        requires
            old(self).wf(),
            old(self)@.len() > 0,
        ensures
            final(self).wf(),
            final(self)@ == old(self)@.skip(1),
            final(self).b == old(self).b,
    {
        if self.i < self.b.len() {
            self.i = self.i + 1;
        }
        proof {
            assert(self@ =~= old(self)@.skip(1));
        }
    }

    fn lit(&mut self, word: &[u8], val: Json) -> (r: Option<Json>)
        requires
            old(self).wf(),
        ensures
            final(self).wf(),
            final(self).b == old(self).b,
            match take_word(old(self)@, word@, val@) {
                Some((v, rest)) => r is Some && r->0@ == v && final(self)@ == rest,
                None => r is None,
            },
    {
        if word.len() > self.b.len() - self.i {
            return None;
        }
        let end: usize = self.i + word.len();
        let piece: &[u8] = vstd::slice::slice_subrange(self.b, self.i, end);
        proof {
            assert(piece@ =~= self@.take(word@.len() as int));
        }
        if crate::text::bytes_eq(piece, word) {
            self.i = end;
            proof {
                assert(self@ =~= old(self)@.skip(word@.len() as int));
            }
            Some(val)
        } else {
            None
        }
    }

    fn number(&mut self) -> (r: Option<Json>)
        requires
            old(self).wf(),
        ensures
            final(self).wf(),
            final(self).b == old(self).b,
            match take_number(old(self)@) {
                Some((n, rest)) => r is Some && r->0@ == JsonV::Num(n) && final(self)@ == rest,
                None => r is None,
            },
    {
        let start: usize = self.i;
        let total: usize = self.b.len();
        while self.i < total && ((0x30 <= self.b[self.i] && self.b[self.i] <= 0x39) || self.b[self.i] == 0x2d
            || self.b[self.i] == 0x2b || self.b[self.i] == 0x2e || self.b[self.i] == 0x65 || self.b[self.i] == 0x45)
            invariant
                self.wf(),
                total == self.b@.len(),
                self.b == old(self).b,
                start == old(self).i,
                start <= self.i,
                (self.i - start) + number_len(self@) == number_len(old(self)@),
            decreases self.b@.len() - self.i,
        {
            proof {
                assert(self@.drop_first() =~= self.b@.skip(self.i + 1));
            }
            self.i = self.i + 1;
        }
        proof {
            assert(old(self)@.take(self.i - start) =~= self.b@.subrange(start as int, self.i as int));
            assert(old(self)@.skip(self.i - start) =~= self@);
        }
        match parse_number(self.b, start, self.i) {
            Some(n) => Some(Json::Num(n)),
            None => None,
        }
    }

    /// One character, encoded in one to four bytes.
    fn scalar(&mut self) -> (r: Option<String>)
        requires
            old(self).wf(),
            old(self)@.len() > 0,
        ensures
            final(self).wf(),
            final(self).b == old(self).b,
            r is Some <==> valid_first_scalar(old(self)@),
            r matches Some(ch) ==> ch@ == seq![decode_first_scalar(old(self)@) as char] && final(self)@ == old(self)@.skip(
                length_of_first_scalar(old(self)@),
            ) && final(self)@.len() < old(self)@.len(),
    {
        let c: u8 = self.b[self.i];
        let ghost cur = self@;
        let n: usize = if c <= 0x7f {
            1
        } else if 0xc0 <= c && c <= 0xdf {
            2
        } else if 0xe0 <= c && c <= 0xef {
            3
        } else {
            4
        };
        if self.b.len() - self.i < n {
            return None;
        }
        let piece: Vec<u8> = vstd::slice::slice_to_vec(vstd::slice::slice_subrange(self.b, self.i, self.i + n));
        proof {
            let p = piece@;
            assert(p =~= cur.take(n as int));
            assert(pop_first_scalar(p) =~= Seq::<u8>::empty());
            assert(valid_utf8(Seq::<u8>::empty()));
            assert(valid_utf8(p) == valid_first_scalar(p));
            assert(valid_first_scalar(p) == valid_first_scalar(cur));
            if valid_utf8(p) {
                assert(decode_utf8(Seq::<u8>::empty()) =~= Seq::<char>::empty());
                assert(decode_utf8(p) =~= seq![decode_first_scalar(cur) as char]);
            }
        }
        let ch: String = match string_from_utf8(piece) {
            Some(ch) => ch,
            None => {
                return None;
            },
        };
        self.i = self.i + n;
        proof {
            assert(self@ =~= cur.skip(n as int));
        }
        Some(ch)
    }

    fn string(&mut self) -> (r: Option<String>)
        requires
            old(self).wf(),
        ensures
            final(self).wf(),
            final(self).b == old(self).b,
            match take_string(old(self)@) {
                Some((cs, rest)) => r is Some && r->0@ == cs && final(self)@ == rest,
                None => r is None,
            },
    {
        if self.i >= self.b.len() {
            return None;
        }
        self.step();
        let ghost start = self@;
        let mut out = String::new();
        proof {
            match take_chars(start) {
                Some((cs, rest)) => {
                    assert(out@ + cs =~= cs);
                },
                None => {},
            }
        }
        while self.i < self.b.len()
            invariant
                self.wf(),
                self.b == old(self).b,
                take_string(old(self)@) == take_chars(start),
                take_chars(start) == (match take_chars(self@) {
                    Some((cs, rest)) => Some((out@ + cs, rest)),
                    None => None,
                }),
            decreases self.b@.len() - self.i,
        {
            let ghost cur = self@;
            let ghost got = out@;
            let c: u8 = self.b[self.i];
            if c == QUOTE {
                self.step();
                proof {
                    assert(got + Seq::<char>::empty() =~= got);
                }
                return Some(out);
            }
            if c != BACKSLASH {
                let ch: String = match self.scalar() {
                    Some(ch) => ch,
                    None => {
                        return None;
                    },
                };
                push_text(&mut out, ch.as_str());
                proof {
                    match take_chars(self@) {
                        Some((cs, rest)) => {
                            assert(got + (ch@ + cs) =~= out@ + cs);
                        },
                        None => {},
                    }
                }
            } else {
                self.step();
                if self.i >= self.b.len() {
                    return None;
                }
                let e: u8 = self.b[self.i];
                self.step();
                proof {
                    assert(self@ =~= cur.skip(2));
                }
                if e == 0x75 {
                    if self.b.len() - self.i < 4 {
                        return None;
                    }
                    let mut v: Vec<char> = Vec::new();
                    v.push(self.b[self.i] as char);
                    v.push(self.b[self.i + 1] as char);
                    v.push(self.b[self.i + 2] as char);
                    v.push(self.b[self.i + 3] as char);
                    proof {
                        assert(v@ =~= latin(cur.subrange(2, 6)));
                        assert(v@.subrange(0, 4) =~= v@);
                    }
                    let cp: u64 = match parse_uint(&v, 0, 4, 16, 0xFFFF_FFFF) {
                        Some(cp) => cp,
                        None => {
                            return None;
                        },
                    };
                    self.i = self.i + 4;
                    proof {
                        assert(self@ =~= cur.skip(6));
                    }
                    let ch: char = match char::from_u32(cp as u32) {
                        Some(ch) => ch,
                        None => '\u{fffd}',
                    };
                    out.push(ch);
                    proof {
                        assert(ch == char_at(cp as nat));
                        match take_chars(self@) {
                            Some((cs, rest)) => {
                                assert(got + (seq![ch] + cs) =~= out@ + cs);
                            },
                            None => {},
                        }
                    }
                } else {
                    let ch: char = match unescape(e) {
                        Some(ch) => ch,
                        None => {
                            return None;
                        },
                    };
                    out.push(ch);
                    proof {
                        match take_chars(self@) {
                            Some((cs, rest)) => {
                                assert(got + (seq![ch] + cs) =~= out@ + cs);
                            },
                            None => {},
                        }
                    }
                }
            }
        }
        None
    }

    fn value(&mut self) -> (r: Option<Json>)
        requires
            old(self).wf(),
        ensures
            final(self).wf(),
            final(self).b == old(self).b,
            match take_value(old(self)@) {
                Some((v, rest)) => r is Some && r->0@ == v && final(self)@ == rest,
                None => r is None,
            },
        decreases old(self)@.len(), 0int,
    {
        proof {
            blank_shrinks(self@);
        }
        self.ws();
        let c: u8 = match self.peek() {
            Some(c) => c,
            None => {
                return None;
            },
        };
        let ghost t = self@;
        proof {
            blank_shrinks(t.skip(1));
        }
        if c == OPEN_BRACE {
            self.step();
            self.ws();
            match self.peek() {
                None => {
                    return None;
                },
                Some(d) => {
                    if d == CLOSE_BRACE {
                        self.step();
                        let empty: Vec<(String, Json)> = Vec::new();
                        return Some(Json::Obj(empty));
                    }
                },
            }
            match self.entries() {
                Some(v) => Some(Json::Obj(v)),
                None => None,
            }
        } else if c == OPEN_BRACKET {
            self.step();
            self.ws();
            match self.peek() {
                None => {
                    return None;
                },
                Some(d) => {
                    if d == CLOSE_BRACKET {
                        self.step();
                        let empty: Vec<Json> = Vec::new();
                        proof {
                            assert(items_view(empty@) =~= Seq::empty());
                        }
                        return Some(Json::Arr(empty));
                    }
                },
            }
            match self.items() {
                Some(v) => Some(Json::Arr(v)),
                None => None,
            }
        } else if c == QUOTE {
            match self.string() {
                Some(s) => Some(Json::Str(s)),
                None => None,
            }
        } else if c == 0x74 {
            let word: [u8; 4] = [0x74, 0x72, 0x75, 0x65];
            proof {
                assert(word@ =~= word_true());
            }
            self.lit(word.as_slice(), Json::Bool(true))
        } else if c == 0x66 {
            let word: [u8; 5] = [0x66, 0x61, 0x6c, 0x73, 0x65];
            proof {
                assert(word@ =~= word_false());
            }
            self.lit(word.as_slice(), Json::Bool(false))
        } else if c == 0x6e {
            let word: [u8; 4] = [0x6e, 0x75, 0x6c, 0x6c];
            proof {
                assert(word@ =~= word_null());
            }
            self.lit(word.as_slice(), Json::Null)
        } else {
            self.number()
        }
    }

    /// The items of an array, behind its bracket.
    fn items(&mut self) -> (r: Option<Vec<Json>>)
        requires
            old(self).wf(),
        ensures
            final(self).wf(),
            final(self).b == old(self).b,
            match take_items(old(self)@, Seq::empty()) {
                Some((xs, rest)) => r is Some && items_view(r->0@) == xs && final(self)@ == rest,
                None => r is None,
            },
        decreases old(self)@.len(), 1int,
    {
        let mut out: Vec<Json> = Vec::new();
        proof {
            assert(items_view(out@) =~= Seq::empty());
        }
        loop
            invariant
                self.wf(),
                self.b == old(self).b,
                self@.len() <= old(self)@.len(),
                take_items(old(self)@, Seq::empty()) == take_items(self@, items_view(out@)),
            decreases self@.len(),
        {
            let ghost cur = self@;
            let ghost got = out@;
            proof {
                value_shrinks(cur);
            }
            let v: Json = match self.value() {
                Some(v) => v,
                None => {
                    return None;
                },
            };
            proof {
                blank_shrinks(self@);
            }
            out.push(v);
            proof {
                assert(items_view(out@) =~= items_view(got).push(json_view(v)));
            }
            self.ws();
            match self.peek() {
                None => {
                    return None;
                },
                Some(d) => {
                    if d == COMMA {
                        self.step();
                    } else if d == CLOSE_BRACKET {
                        self.step();
                        return Some(out);
                    } else {
                        return None;
                    }
                },
            }
        }
    }

    /// The members of an object, behind its brace.
    fn entries(&mut self) -> (r: Option<Vec<(String, Json)>>)
        requires
            old(self).wf(),
        ensures
            final(self).wf(),
            final(self).b == old(self).b,
            match take_entries(old(self)@, Map::empty()) {
                Some((m, rest)) => r is Some && entries_view(r->0@) == m && final(self)@ == rest,
                None => r is None,
            },
        decreases old(self)@.len(), 1int,
    {
        let mut out: Vec<(String, Json)> = Vec::new();
        loop
            invariant
                self.wf(),
                self.b == old(self).b,
                self@.len() <= old(self)@.len(),
                take_entries(old(self)@, Map::empty()) == take_entries(self@, entries_view(out@)),
            decreases self@.len(),
        {
            let ghost cur = self@;
            let ghost got = out@;
            proof {
                blank_shrinks(cur);
                string_shrinks(skip_blank(cur));
            }
            self.ws();
            let key: String = match self.string() {
                Some(key) => key,
                None => {
                    return None;
                },
            };
            proof {
                blank_shrinks(self@);
            }
            self.ws();
            match self.peek() {
                None => {
                    return None;
                },
                Some(d) => {
                    if d != COLON {
                        return None;
                    }
                },
            }
            self.step();
            proof {
                value_shrinks(self@);
            }
            let v: Json = match self.value() {
                Some(v) => v,
                None => {
                    return None;
                },
            };
            proof {
                blank_shrinks(self@);
            }
            let ghost kv = key@;
            out.push((key, v));
            proof {
                assert(out@.drop_last() =~= got);
                assert(entries_view(out@) == entries_view(got).insert(kv, json_view(v)));
            }
            self.ws();
            match self.peek() {
                None => {
                    return None;
                },
                Some(d) => {
                    if d == COMMA {
                        self.step();
                    } else if d == CLOSE_BRACE {
                        self.step();
                        return Some(out);
                    } else {
                        return None;
                    }
                },
            }
        }
    }
}

fn unescape(e: u8) -> (r: Option<char>)
    ensures
        r == unescaped(e),
{
    if e == QUOTE {
        Some('"')
    } else if e == BACKSLASH {
        Some('\\')
    } else if e == 0x2f {
        Some('/')
    } else if e == 0x6e {
        Some('\n')
    } else if e == 0x72 {
        Some('\r')
    } else if e == 0x74 {
        Some('\t')
    } else if e == 0x62 {
        Some(8u8 as char)
    } else if e == 0x66 {
        Some(12u8 as char)
    } else {
        None
    }
}

/// Parse a JSON document. Tolerant recursive descent: enough for the events and relay frames
/// we exchange, not a conformance suite.
pub fn parse(s: &str) -> (r: Option<Json>)
    ensures
        r is Some <==> json_of(vstd::utf8::encode_utf8(s@)) is Some,
        r matches Some(j) ==> json_of(vstd::utf8::encode_utf8(s@)) == Some(j@),
{
    let b: &[u8] = s.as_bytes();
    let mut p = Parser { b, i: 0 };
    proof {
        assert(p@ =~= b@);
    }
    p.value()
}

impl Json {
    pub fn as_str(&self) -> (r: Option<&str>)
        ensures
            match self@ {
                JsonV::Str(s) => r is Some && r->0@ == s,
                _ => r is None,
            },
    {
        match self {
            Json::Str(s) => Some(s.as_str()),
            _ => None,
        }
    }

    /// A number as an integer.
    pub fn as_u64(&self) -> (r: Option<u64>)
        ensures
            match self@ {
                JsonV::Num(n) => r is Some && r->0 as nat == u64_of(n),
                _ => r is None,
            },
    {
        match self {
            Json::Num(n) => Some(n.as_u64()),
            _ => None,
        }
    }

    pub fn as_arr(&self) -> (r: Option<&Vec<Json>>)
        ensures
            match self@ {
                JsonV::Arr(xs) => r is Some && items_view(r->0@) == xs,
                _ => r is None,
            },
    {
        match self {
            Json::Arr(a) => Some(a),
            _ => None,
        }
    }

    pub fn as_obj(&self) -> (r: Option<&Vec<(String, Json)>>)
        ensures
            match self@ {
                JsonV::Obj(m) => r is Some && entries_view(r->0@) == m,
                _ => r is None,
            },
    {
        match self {
            Json::Obj(o) => Some(o),
            _ => None,
        }
    }
}

/// The member of an object with the given name.
pub fn member<'a>(obj: &'a Vec<(String, Json)>, name: &str) -> (r: Option<&'a Json>)
    ensures
        r is Some <==> entries_view(obj@).contains_key(name@),
        r matches Some(j) ==> j@ == entries_view(obj@)[name@],
{
    let mut i: usize = obj.len();
    proof {
        assert(obj@.take(i as int) =~= obj@);
    }
    while i > 0
        invariant
            i <= obj@.len(),
            entries_view(obj@.take(i as int)).contains_key(name@) <==> entries_view(obj@).contains_key(name@),
            entries_view(obj@).contains_key(name@) ==> entries_view(obj@.take(i as int))[name@] == entries_view(
                obj@,
            )[name@],
        decreases i,
    {
        proof {
            assert(obj@.take(i as int).drop_last() =~= obj@.take(i - 1));
            assert(obj@.take(i as int).last() == obj@[i - 1]);
        }
        i = i - 1;
        if crate::text::str_eq(obj[i].0.as_str(), name) {
            return Some(&obj[i].1);
        }
    }
    None
}

} // verus!
