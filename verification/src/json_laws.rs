//! What the JSON writer writes, the reader reads back.

use crate::json::{
    bracketed, char_at, digits_len, digits_of, escaped, escaped_all, fraction, in_number, is_blank, is_digit, latin,
    member_json, members_json, number_len, number_parts, object_json, quoted, quoted_list, skip_blank, tag_list, tags_json,
    take_chars, take_entries, take_items, take_string, take_value, unescaped, unsign, value_shrinks, JsonV, BACKSLASH,
    CLOSE_BRACE, CLOSE_BRACKET, COLON, COMMA, OPEN_BRACE, OPEN_BRACKET, QUOTE,
};
use crate::number::{dec_val, NumberV};
use crate::text::{dec, digit_value, digits_value, hex_digit, uint_value};
use vstd::prelude::*;
use vstd::utf8::{decode_first_scalar, encode_utf8, is_ascii_chars, length_of_first_scalar, valid_first_scalar};

verus! {

/// The bytes of an ASCII text.
pub open spec fn ascii(s: Seq<char>) -> Seq<u8> {
    Seq::new(s.len(), |i: int| s[i] as u8)
}

/// Is every character an ASCII character?
pub open spec fn plain(s: Seq<char>) -> bool {
    forall|i: int| 0 <= i < s.len() ==> (#[trigger] s[i] as u32) < 0x80
}

proof fn low_char(c: char)
    requires
        (c as u32) < 0x80,
    ensures
        '\0' <= c <= '\u{7f}',
{
}

pub proof fn ascii_is_utf8(s: Seq<char>)
    requires
        plain(s),
    ensures
        encode_utf8(s) == ascii(s),
{
    assert(is_ascii_chars(s)) by {
        assert forall|i: int| 0 <= i < s.len() implies '\0' <= #[trigger] s[i] <= '\u{7f}' by {
            low_char(s[i]);
        }
    }
    vstd::utf8::is_ascii_chars_encode_utf8(s);
    assert(encode_utf8(s) =~= ascii(s));
}

/// The bytes of two texts, one after the other.
pub proof fn utf8_concat(a: Seq<char>, b: Seq<char>)
    ensures
        encode_utf8(a + b) == encode_utf8(a) + encode_utf8(b),
    decreases a.len(),
{
    if a.len() == 0 {
        assert(a + b =~= b);
        assert(encode_utf8(a) + encode_utf8(b) =~= encode_utf8(b));
    } else {
        let t = a.drop_first();
        assert((a + b).drop_first() =~= t + b);
        utf8_concat(t, b);
        let h = vstd::utf8::encode_scalar(a[0] as u32);
        assert(encode_utf8(a) == h + encode_utf8(t));
        assert(encode_utf8(a + b) == h + encode_utf8(t + b));
        assoc(h, encode_utf8(t), encode_utf8(b));
    }
}

/// An ASCII character is one byte.
pub proof fn utf8_one(c: char)
    requires
        (c as u32) < 0x80,
    ensures
        encode_utf8(seq![c]) == seq![c as u8],
{
    ascii_is_utf8(seq![c]);
    assert(ascii(seq![c]) =~= seq![c as u8]);
}

/// Two texts with an ASCII character between them.
pub proof fn utf8_parted(a: Seq<char>, c: char, b: Seq<char>)
    requires
        (c as u32) < 0x80,
    ensures
        encode_utf8(a + (seq![c] + b)) == encode_utf8(a) + (seq![c as u8] + encode_utf8(b)),
{
    utf8_concat(a, seq![c] + b);
    utf8_concat(seq![c], b);
    utf8_one(c);
}

/// A text between two ASCII characters.
pub proof fn utf8_enclosed(l: char, s: Seq<char>, r: char)
    requires
        (l as u32) < 0x80,
        (r as u32) < 0x80,
    ensures
        encode_utf8(seq![l] + s + seq![r]) == seq![l as u8] + encode_utf8(s) + seq![r as u8],
{
    utf8_concat(seq![l] + s, seq![r]);
    utf8_concat(seq![l], s);
    utf8_one(l);
    utf8_one(r);
}

/// A text that begins with an ASCII character begins with its byte.
pub proof fn utf8_first(s: Seq<char>)
    requires
        s.len() > 0,
        (s[0] as u32) < 0x80,
    ensures
        encode_utf8(s).len() > 0,
        encode_utf8(s)[0] == s[0] as u8,
{
    assert(s =~= seq![s[0]] + s.drop_first());
    utf8_concat(seq![s[0]], s.drop_first());
    utf8_one(s[0]);
}

pub proof fn assoc(a: Seq<u8>, b: Seq<u8>, c: Seq<u8>)
    ensures
        (a + b) + c == a + (b + c),
{
    assert((a + b) + c =~= a + (b + c));
}

pub proof fn no_blank(s: Seq<u8>)
    requires
        s.len() > 0,
        !is_blank(s[0]),
    ensures
        skip_blank(s) == s,
{
}

// ----------------------------------------------------------------------
// Strings
// ----------------------------------------------------------------------

proof fn control_reads_back(c: char)
    requires
        (c as u32) < 0x20,
    ensures
        uint_value(seq!['0', '0', hex_digit(c as int / 16), hex_digit(c as int % 16)], 16, u32::MAX as nat) == Some(
            c as nat,
        ),
        char_at(c as nat) == c,
{
    let h = hex_digit(c as int / 16);
    let l = hex_digit(c as int % 16);
    let s = seq!['0', '0', h, l];
    assert(digit_value(h) == Some((c as int / 16) as nat));
    assert(digit_value(l) == Some((c as int % 16) as nat));
    let s3 = s.drop_last();
    let s2 = s3.drop_last();
    let s1 = s2.drop_last();
    assert(s3.last() == h && s2.last() == '0' && s1.last() == '0');
    assert(digits_value(s1, 16) == Some(0nat));
    assert(digits_value(s2, 16) == Some(0nat));
    assert(digits_value(s3, 16) == Some((c as int / 16) as nat));
    assert(digits_value(s, 16) == Some(c as nat));
}

/// A character beyond ASCII, and whatever stands behind it.
proof fn scalar_reads_back(c: char, rest: Seq<u8>)
    requires
        (c as u32) >= 0x80,
    ensures
        ({
            let s = encode_utf8(seq![c]) + rest;
            &&& s.len() > 0
            &&& s[0] >= 0x80
            &&& valid_first_scalar(s)
            &&& decode_first_scalar(s) == c as u32
            &&& s.skip(length_of_first_scalar(s)) == rest
        }),
{
    let b = encode_utf8(seq![c]);
    let s = b + rest;
    vstd::utf8::encode_utf8_first_scalar(seq![c]);
    assert(seq![c].drop_first() =~= Seq::<char>::empty());
    assert(encode_utf8(Seq::<char>::empty()) =~= Seq::<u8>::empty());
    assert(b =~= vstd::utf8::encode_scalar(c as u32) + encode_utf8(seq![c].drop_first()));
    assert(b =~= vstd::utf8::encode_scalar(c as u32));
    let x = b[0];
    assert((x & 0x7f) <= 0x7f) by (bit_vector);
    assert(x >= 0x80);
    assert(s.skip(length_of_first_scalar(s)) =~= rest);
}

proof fn escape_reads_back(c: char, rest: Seq<u8>)
    ensures
        take_chars(encode_utf8(escaped(c)) + rest) == (match take_chars(rest) {
            Some((cs, r)) => Some((seq![c] + cs, r)),
            None => None,
        }),
{
    let e = escaped(c);
    if c as u32 >= 0x80 {
        assert(e =~= seq![c]);
        scalar_reads_back(c, rest);
        vstd::utf8::char_u32_cast(c, c as u32);
    } else {
        assert(plain(e));
        ascii_is_utf8(e);
        low_escape_reads_back(c, rest);
    }
}

proof fn low_escape_reads_back(c: char, rest: Seq<u8>)
    requires
        (c as u32) < 0x80,
    ensures
        take_chars(ascii(escaped(c)) + rest) == (match take_chars(rest) {
            Some((cs, r)) => Some((seq![c] + cs, r)),
            None => None,
        }),
{
    let e = escaped(c);
    let s = ascii(e) + rest;
    if c == '"' || c == '\\' || c == '\n' || c == '\r' || c == '\t' || c as u32 == 8 || c as u32 == 12 {
        assert(s[0] == BACKSLASH);
        assert(s.skip(2) =~= rest);
        assert(s[1] == ascii(e)[1]);
        assert(unescaped(s[1]) == Some(c));
    } else if (c as u32) < 0x20 {
        assert(s[0] == BACKSLASH && s[1] == 0x75);
        assert(s.skip(6) =~= rest);
        let d = seq!['0', '0', hex_digit(c as int / 16), hex_digit(c as int % 16)];
        assert(latin(s.subrange(2, 6)) =~= d);
        control_reads_back(c);
    } else {
        assert(s.skip(1) =~= rest);
        assert(s[0] == c as u8);
        let x = c as u8;
        assert((x & 0x7f) == x) by (bit_vector)
            requires
                x <= 0x7f,
        ;
        assert(length_of_first_scalar(s) == 1);
        assert(decode_first_scalar(s) == c as u32);
        vstd::utf8::char_u32_cast(c, c as u32);
    }
}

proof fn chars_read_back(s: Seq<char>, rest: Seq<u8>)
    ensures
        take_chars(encode_utf8(escaped_all(s)) + (seq![QUOTE] + rest)) == Some((s, rest)),
    decreases s.len(),
{
    if s.len() == 0 {
        let b = encode_utf8(escaped_all(s)) + (seq![QUOTE] + rest);
        assert(b =~= seq![QUOTE] + rest);
        assert(b.skip(1) =~= rest);
        assert(s =~= Seq::empty());
    } else {
        let tail = s.drop_first();
        chars_read_back(tail, rest);
        let b = encode_utf8(escaped_all(tail)) + (seq![QUOTE] + rest);
        escape_reads_back(s[0], b);
        utf8_concat(escaped(s[0]), escaped_all(tail));
        assoc(encode_utf8(escaped(s[0])), encode_utf8(escaped_all(tail)), seq![QUOTE] + rest);
        assert(seq![s[0]] + tail =~= s);
    }
}

/// A string literal reads back as the string.
pub proof fn string_reads_back(s: Seq<char>, rest: Seq<u8>)
    ensures
        take_string(encode_utf8(quoted(s)) + rest) == Some((s, rest)),
        take_value(encode_utf8(quoted(s)) + rest) == Some((JsonV::Str(s), rest)),
        quoted(s).len() > 0 && quoted(s)[0] == '"',
        (encode_utf8(quoted(s)) + rest)[0] == QUOTE,
        encode_utf8(quoted(s)).len() > 0,
{
    chars_read_back(s, rest);
    utf8_enclosed('"', escaped_all(s), '"');
    let b = encode_utf8(quoted(s)) + rest;
    assert(b.skip(1) =~= encode_utf8(escaped_all(s)) + (seq![QUOTE] + rest));
    assert(b[0] == QUOTE);
    no_blank(b);
}

// ----------------------------------------------------------------------
// Numbers
// ----------------------------------------------------------------------

/// The digits of a decimal numeral.
pub open spec fn numeral(n: nat) -> NumberV {
    NumberV {
        neg: false,
        whole: digits_of(ascii(dec(n))),
        frac: Seq::empty(),
        exp_neg: false,
        exp: Seq::empty(),
    }
}

proof fn digit_run(d: Seq<u8>, rest: Seq<u8>)
    requires
        forall|i: int| 0 <= i < d.len() ==> is_digit(#[trigger] d[i]),
        rest.len() > 0 ==> !in_number(rest[0]),
    ensures
        number_len(d + rest) == d.len(),
        digits_len(d) == d.len(),
    decreases d.len(),
{
    if d.len() == 0 {
        assert(d + rest =~= rest);
    } else {
        let t = d.drop_first();
        assert forall|i: int| 0 <= i < t.len() implies is_digit(#[trigger] t[i]) by {
            assert(is_digit(d[i + 1]));
        }
        digit_run(t, rest);
        assert((d + rest).drop_first() =~= t + rest);
        assert(is_digit(d[0]));
    }
}

pub proof fn dec_digits(n: nat)
    ensures
        forall|i: int| 0 <= i < ascii(dec(n)).len() ==> is_digit(#[trigger] ascii(dec(n))[i]),
        dec(n).len() >= 1,
        dec_val(digits_of(ascii(dec(n)))) == n,
        plain(dec(n)),
    decreases n,
{
    let c = hex_digit((n % 10) as int);
    assert(c as u8 == 0x30 + n % 10);
    if n >= 10 {
        dec_digits(n / 10);
        let h = dec(n / 10);
        assert(dec(n) == h.push(c));
        assert(digits_of(ascii(dec(n))).drop_last() =~= digits_of(ascii(h)));
        assert forall|i: int| 0 <= i < ascii(dec(n)).len() implies is_digit(#[trigger] ascii(dec(n))[i]) by {
            if i < h.len() {
                assert(ascii(h)[i] == ascii(dec(n))[i]);
            }
        }
    } else {
        reveal_with_fuel(dec_val, 2);
        assert(digits_of(ascii(dec(n))).drop_last() =~= Seq::<u8>::empty());
    }
}

/// A decimal numeral, followed by nothing that could belong to it, reads back as its digits.
pub proof fn numeral_reads_back(n: nat, rest: Seq<u8>)
    requires
        rest.len() > 0 ==> !in_number(rest[0]),
    ensures
        take_value(encode_utf8(dec(n)) + rest) == Some((JsonV::Num(numeral(n)), rest)),
        dec_val(numeral(n).whole) == n,
{
    dec_digits(n);
    ascii_is_utf8(dec(n));
    let d = ascii(dec(n));
    let b = d + rest;
    digit_run(d, rest);
    assert(b[0] == d[0] && is_digit(d[0]));
    no_blank(b);
    assert(b.take(d.len() as int) =~= d);
    assert(b.skip(d.len() as int) =~= rest);
    assert(unsign(d) == (false, d));
    assert(d.take(d.len() as int) =~= d);
    assert(d.skip(d.len() as int) =~= Seq::<u8>::empty());
    assert(fraction(Seq::<u8>::empty()) == (Seq::<u8>::empty(), Seq::<u8>::empty()));
    assert(digits_of(Seq::<u8>::empty()) =~= Seq::<u8>::empty());
    assert(number_parts(d) == Some(numeral(n)));
}

// ----------------------------------------------------------------------
// Lists
// ----------------------------------------------------------------------

/// Strings as JSON values.
pub open spec fn strings(t: Seq<Seq<char>>) -> Seq<JsonV> {
    Seq::new(t.len(), |i: int| JsonV::Str(t[i]))
}

/// Lists of strings as JSON values.
pub open spec fn string_lists(ts: Seq<Seq<Seq<char>>>) -> Seq<JsonV> {
    Seq::new(ts.len(), |i: int| JsonV::Arr(strings(ts[i])))
}

/// One item of a list, and the comma or the bracket behind it.
pub proof fn item_step(item: Seq<u8>, v: JsonV, sep: u8, rest: Seq<u8>, taken: Seq<JsonV>)
    requires
        take_value(item + (seq![sep] + rest)) == Some((v, seq![sep] + rest)),
        sep == COMMA || sep == CLOSE_BRACKET,
    ensures
        sep == COMMA ==> take_items(item + (seq![sep] + rest), taken) == take_items(rest, taken.push(v)),
        sep == CLOSE_BRACKET ==> take_items(item + (seq![sep] + rest), taken) == Some((taken.push(v), rest)),
{
    let s = item + (seq![sep] + rest);
    value_shrinks(s);
    let r = seq![sep] + rest;
    no_blank(r);
    assert(r.skip(1) =~= rest);
}

proof fn list_reads_back(t: Seq<Seq<char>>, rest: Seq<u8>, taken: Seq<JsonV>)
    requires
        t.len() > 0,
    ensures
        take_items(encode_utf8(quoted_list(t)) + (seq![CLOSE_BRACKET] + rest), taken) == Some((taken + strings(t), rest)),
        quoted_list(t).len() > 0 && quoted_list(t)[0] == '"',
    decreases t.len(),
{
    let q = encode_utf8(quoted(t[0]));
    if t.len() == 1 {
        string_reads_back(t[0], seq![CLOSE_BRACKET] + rest);
        item_step(q, JsonV::Str(t[0]), CLOSE_BRACKET, rest, taken);
        assert(taken + strings(t) =~= taken.push(JsonV::Str(t[0])));
    } else {
        let tail = t.drop_first();
        let more = encode_utf8(quoted_list(tail)) + (seq![CLOSE_BRACKET] + rest);
        list_reads_back(tail, rest, taken.push(JsonV::Str(t[0])));
        string_reads_back(t[0], seq![COMMA] + more);
        item_step(q, JsonV::Str(t[0]), COMMA, more, taken);
        utf8_parted(quoted(t[0]), ',', quoted_list(tail));
        assert(encode_utf8(quoted_list(t)) + (seq![CLOSE_BRACKET] + rest) =~= q + (seq![COMMA] + more));
        assert(taken + strings(t) =~= taken.push(JsonV::Str(t[0])) + strings(tail));
    }
}

/// A bracketed list of strings reads back as an array of strings.
pub proof fn strings_read_back(t: Seq<Seq<char>>, rest: Seq<u8>)
    ensures
        take_value(encode_utf8(bracketed(quoted_list(t))) + rest) == Some((JsonV::Arr(strings(t)), rest)),
        bracketed(quoted_list(t))[0] == '[',
{
    let body = encode_utf8(quoted_list(t)) + (seq![CLOSE_BRACKET] + rest);
    let b = encode_utf8(bracketed(quoted_list(t))) + rest;
    utf8_enclosed('[', quoted_list(t), ']');
    assert(b =~= seq![OPEN_BRACKET] + body);
    assert(b.skip(1) =~= body);
    no_blank(b);
    if t.len() == 0 {
        assert(body =~= seq![CLOSE_BRACKET] + rest);
        no_blank(body);
        assert(body.skip(1) =~= rest);
        assert(strings(t) =~= Seq::empty());
    } else {
        list_reads_back(t, rest, Seq::empty());
        assert(Seq::<JsonV>::empty() + strings(t) =~= strings(t));
        utf8_first(quoted_list(t));
        assert(body[0] == QUOTE);
        no_blank(body);
    }
}

proof fn lists_read_back(ts: Seq<Seq<Seq<char>>>, rest: Seq<u8>, taken: Seq<JsonV>)
    requires
        ts.len() > 0,
    ensures
        take_items(encode_utf8(tag_list(ts)) + (seq![CLOSE_BRACKET] + rest), taken) == Some(
            (taken + string_lists(ts), rest),
        ),
        tag_list(ts).len() > 0 && tag_list(ts)[0] == '[',
    decreases ts.len(),
{
    let text = bracketed(quoted_list(ts[0]));
    let q = encode_utf8(text);
    let v = JsonV::Arr(strings(ts[0]));
    if ts.len() == 1 {
        strings_read_back(ts[0], seq![CLOSE_BRACKET] + rest);
        item_step(q, v, CLOSE_BRACKET, rest, taken);
        assert(taken + string_lists(ts) =~= taken.push(v));
    } else {
        let tail = ts.drop_first();
        let more = encode_utf8(tag_list(tail)) + (seq![CLOSE_BRACKET] + rest);
        lists_read_back(tail, rest, taken.push(v));
        strings_read_back(ts[0], seq![COMMA] + more);
        item_step(q, v, COMMA, more, taken);
        utf8_parted(text, ',', tag_list(tail));
        assert(encode_utf8(tag_list(ts)) + (seq![CLOSE_BRACKET] + rest) =~= q + (seq![COMMA] + more));
        assert(taken + string_lists(ts) =~= taken.push(v) + string_lists(tail));
    }
}

/// Tags read back as an array of arrays of strings.
pub proof fn tags_read_back(ts: Seq<Seq<Seq<char>>>, rest: Seq<u8>)
    ensures
        take_value(encode_utf8(tags_json(ts)) + rest) == Some((JsonV::Arr(string_lists(ts)), rest)),
{
    let body = encode_utf8(tag_list(ts)) + (seq![CLOSE_BRACKET] + rest);
    let b = encode_utf8(tags_json(ts)) + rest;
    utf8_enclosed('[', tag_list(ts), ']');
    assert(b =~= seq![OPEN_BRACKET] + body);
    assert(b.skip(1) =~= body);
    no_blank(b);
    if ts.len() == 0 {
        assert(body =~= seq![CLOSE_BRACKET] + rest);
        no_blank(body);
        assert(body.skip(1) =~= rest);
        assert(string_lists(ts) =~= Seq::empty());
    } else {
        lists_read_back(ts, rest, Seq::empty());
        assert(Seq::<JsonV>::empty() + string_lists(ts) =~= string_lists(ts));
        utf8_first(tag_list(ts));
        assert(body[0] == OPEN_BRACKET);
        no_blank(body);
    }
}

// ----------------------------------------------------------------------
// Objects
// ----------------------------------------------------------------------

/// Does the text read back as the value, whatever stands behind it in an object?
pub open spec fn reads_as(text: Seq<char>, v: JsonV) -> bool {
    forall|sep: u8, rest: Seq<u8>|
        (sep == COMMA || sep == CLOSE_BRACE) ==> #[trigger] take_value(encode_utf8(text) + (seq![sep] + rest)) == Some(
            (v, seq![sep] + rest),
        )
}

/// The members of an object, entered one after the other.
pub open spec fn entered(
    taken: Map<Seq<char>, JsonV>,
    ms: Seq<(Seq<char>, Seq<char>)>,
    vs: Seq<JsonV>,
) -> Map<Seq<char>, JsonV>
    decreases ms.len(),
{
    if ms.len() == 0 {
        taken
    } else {
        entered(taken.insert(ms[0].0, vs[0]), ms.drop_first(), vs.drop_first())
    }
}

pub open spec fn members_read(ms: Seq<(Seq<char>, Seq<char>)>, vs: Seq<JsonV>) -> bool {
    &&& ms.len() == vs.len()
    &&& forall|i: int| 0 <= i < ms.len() ==> reads_as((#[trigger] ms[i]).1, vs[i])
}

proof fn entry_step(
    name: Seq<char>,
    text: Seq<char>,
    v: JsonV,
    sep: u8,
    rest: Seq<u8>,
    taken: Map<Seq<char>, JsonV>,
)
    requires
        reads_as(text, v),
        sep == COMMA || sep == CLOSE_BRACE,
    ensures
        sep == COMMA ==> take_entries(encode_utf8(member_json(name, text)) + (seq![sep] + rest), taken) == take_entries(
            rest,
            taken.insert(name, v),
        ),
        sep == CLOSE_BRACE ==> take_entries(encode_utf8(member_json(name, text)) + (seq![sep] + rest), taken) == Some(
            (taken.insert(name, v), rest),
        ),
{
    let r3 = seq![sep] + rest;
    let val = encode_utf8(text) + r3;
    let r1 = seq![COLON] + val;
    let s = encode_utf8(member_json(name, text)) + r3;
    utf8_parted(quoted(name), ':', text);
    assert(s =~= encode_utf8(quoted(name)) + r1);
    string_reads_back(name, r1);
    assert(s[0] == QUOTE);
    no_blank(s);
    assert(r1[0] == COLON);
    no_blank(r1);
    assert(r1.skip(1) =~= val);
    assert(take_value(val) == Some((v, r3)));
    value_shrinks(val);
    assert(r3[0] == sep);
    no_blank(r3);
    assert(r3.skip(1) =~= rest);
    assert(take_string(s) == Some((name, r1)));
}

proof fn members_read_back(
    ms: Seq<(Seq<char>, Seq<char>)>,
    vs: Seq<JsonV>,
    rest: Seq<u8>,
    taken: Map<Seq<char>, JsonV>,
)
    requires
        ms.len() > 0,
        members_read(ms, vs),
    ensures
        take_entries(encode_utf8(members_json(ms)) + (seq![CLOSE_BRACE] + rest), taken) == Some(
            (entered(taken, ms, vs), rest),
        ),
        members_json(ms).len() > 0 && members_json(ms)[0] == '"',
    decreases ms.len(),
{
    let name = ms[0].0;
    let text = ms[0].1;
    assert(reads_as(ms[0].1, vs[0]));
    string_reads_back(name, Seq::empty());
    reveal_with_fuel(entered, 2);
    if ms.len() == 1 {
        entry_step(name, text, vs[0], CLOSE_BRACE, rest, taken);
    } else {
        let tail = ms.drop_first();
        let vt = vs.drop_first();
        assert forall|i: int| 0 <= i < tail.len() implies reads_as((#[trigger] tail[i]).1, vt[i]) by {
            assert(reads_as(ms[i + 1].1, vs[i + 1]));
        }
        let more = encode_utf8(members_json(tail)) + (seq![CLOSE_BRACE] + rest);
        members_read_back(tail, vt, rest, taken.insert(name, vs[0]));
        entry_step(name, text, vs[0], COMMA, more, taken);
        utf8_parted(member_json(name, text), ',', members_json(tail));
        assert(encode_utf8(members_json(ms)) + (seq![CLOSE_BRACE] + rest) =~= encode_utf8(member_json(name, text)) + (seq![COMMA]
            + more));
    }
}

/// An object whose members read back reads back as the members entered in their order.
pub proof fn object_reads_back(ms: Seq<(Seq<char>, Seq<char>)>, vs: Seq<JsonV>, rest: Seq<u8>)
    requires
        members_read(ms, vs),
    ensures
        take_value(encode_utf8(object_json(ms)) + rest) == Some((JsonV::Obj(entered(Map::empty(), ms, vs)), rest)),
{
    let body = encode_utf8(members_json(ms)) + (seq![CLOSE_BRACE] + rest);
    let b = encode_utf8(object_json(ms)) + rest;
    utf8_enclosed('{', members_json(ms), '}');
    assert(b =~= seq![OPEN_BRACE] + body);
    assert(b.skip(1) =~= body);
    no_blank(b);
    if ms.len() == 0 {
        assert(body =~= seq![CLOSE_BRACE] + rest);
        no_blank(body);
        assert(body.skip(1) =~= rest);
    } else {
        members_read_back(ms, vs, rest, Map::empty());
        utf8_first(members_json(ms));
        assert(body[0] == QUOTE);
        no_blank(body);
    }
}

/// The kinds of member values that the project writes.
pub proof fn string_reads(s: Seq<char>)
    ensures
        reads_as(quoted(s), JsonV::Str(s)),
{
    string_reads_back(s, Seq::empty());
    assert forall|sep: u8, rest: Seq<u8>| (sep == COMMA || sep == CLOSE_BRACE) implies #[trigger] take_value(
        encode_utf8(quoted(s)) + (seq![sep] + rest),
    ) == Some((JsonV::Str(s), seq![sep] + rest)) by {
        string_reads_back(s, seq![sep] + rest);
    }
}

pub proof fn numeral_reads(n: nat)
    ensures
        reads_as(dec(n), JsonV::Num(numeral(n))),
        dec_val(numeral(n).whole) == n,
{
    numeral_reads_back(n, Seq::empty());
    assert forall|sep: u8, rest: Seq<u8>| (sep == COMMA || sep == CLOSE_BRACE) implies #[trigger] take_value(
        encode_utf8(dec(n)) + (seq![sep] + rest),
    ) == Some((JsonV::Num(numeral(n)), seq![sep] + rest)) by {
        numeral_reads_back(n, seq![sep] + rest);
    }
}

pub proof fn tags_read(ts: Seq<Seq<Seq<char>>>)
    ensures
        reads_as(tags_json(ts), JsonV::Arr(string_lists(ts))),
{
    tags_read_back(ts, Seq::empty());
    assert forall|sep: u8, rest: Seq<u8>| (sep == COMMA || sep == CLOSE_BRACE) implies #[trigger] take_value(
        encode_utf8(tags_json(ts)) + (seq![sep] + rest),
    ) == Some((JsonV::Arr(string_lists(ts)), seq![sep] + rest)) by {
        tags_read_back(ts, seq![sep] + rest);
    }
}

} // verus!
