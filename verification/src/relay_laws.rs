//! What goes over a relay's wire says what it is meant to say: a reader of JSON finds in each message just what was
//! put into it.

use crate::json::{
    bracketed, comma_list, escaped, escaped_all, is_blank, json_of, quoted, quoted_list, tags_json,
    take_items, take_value, JsonV, CLOSE_BRACE, CLOSE_BRACKET, COMMA, OPEN_BRACKET,
};
use crate::json_laws::{
    ascii, dec_digits, entered, item_step, members_read, no_blank, numeral, numeral_reads,
    numeral_reads_back, object_reads_back, reads_as, string_lists, string_reads_back, strings,
    strings_read_back, tags_read_back, utf8_enclosed, utf8_first, utf8_parted,
};
use crate::nostr::{event_json, event_text, EventV};
use crate::nostr_laws::{event_entries, event_fits, event_reads};
use crate::signaling::{filter_json, filter_members, numerals, with_member, FilterV};
use crate::text::{dec, hex};
use crate::webrtc::{dashed, event_frame, req_frame, sub_id, sub_name};
use vstd::prelude::*;
use vstd::utf8::encode_utf8;

verus! {

// ----------------------------------------------------------------------
// Arrays
// ----------------------------------------------------------------------

/// Does the text read as the value, whatever stands behind it in an array?
pub open spec fn reads_in_array(text: Seq<char>, v: JsonV) -> bool {
    forall|sep: u8, rest: Seq<u8>|
        (sep == COMMA || sep == CLOSE_BRACKET) ==> #[trigger] take_value(encode_utf8(text) + (seq![sep] + rest)) == Some(
            (v, seq![sep] + rest),
        )
}

/// Does the text begin with an ASCII character that is neither blank nor a closing bracket?
spec fn begins_well(text: Seq<char>) -> bool {
    text.len() > 0 && (text[0] as u32) < 0x80 && !is_blank(text[0] as u8) && (text[0] as u8) != CLOSE_BRACKET
}

proof fn items_read(items: Seq<Seq<char>>, vs: Seq<JsonV>, rest: Seq<u8>, taken: Seq<JsonV>)
    requires
        items.len() > 0,
        items.len() == vs.len(),
        forall|i: int| 0 <= i < items.len() ==> reads_in_array(#[trigger] items[i], vs[i]),
    ensures
        take_items(encode_utf8(comma_list(items)) + (seq![CLOSE_BRACKET] + rest), taken) == Some((taken + vs, rest)),
    decreases items.len(),
{
    let q = encode_utf8(items[0]);
    assert(reads_in_array(items[0], vs[0]));
    if items.len() == 1 {
        item_step(q, vs[0], CLOSE_BRACKET, rest, taken);
        assert(taken + vs =~= taken.push(vs[0]));
    } else {
        let tail = items.drop_first();
        let tvs = vs.drop_first();
        assert forall|i: int| 0 <= i < tail.len() implies reads_in_array(#[trigger] tail[i], tvs[i]) by {
            assert(reads_in_array(items[i + 1], vs[i + 1]));
        }
        let more = encode_utf8(comma_list(tail)) + (seq![CLOSE_BRACKET] + rest);
        items_read(tail, tvs, rest, taken.push(vs[0]));
        item_step(q, vs[0], COMMA, more, taken);
        utf8_parted(items[0], ',', comma_list(tail));
        assert(encode_utf8(comma_list(items)) + (seq![CLOSE_BRACKET] + rest) =~= q + (seq![COMMA] + more));
        assert(taken + vs =~= taken.push(vs[0]) + tvs);
    }
}

proof fn array_reads(items: Seq<Seq<char>>, vs: Seq<JsonV>, rest: Seq<u8>)
    requires
        items.len() > 0,
        items.len() == vs.len(),
        begins_well(items[0]),
        forall|i: int| 0 <= i < items.len() ==> reads_in_array(#[trigger] items[i], vs[i]),
    ensures
        take_value(encode_utf8(bracketed(comma_list(items))) + rest) == Some((JsonV::Arr(vs), rest)),
{
    let list = comma_list(items);
    let body = encode_utf8(list) + (seq![CLOSE_BRACKET] + rest);
    let b = encode_utf8(bracketed(list)) + rest;
    utf8_enclosed('[', list, ']');
    assert(b =~= seq![OPEN_BRACKET] + body);
    assert(b.skip(1) =~= body);
    no_blank(b);
    items_read(items, vs, rest, Seq::empty());
    assert(Seq::<JsonV>::empty() + vs =~= vs);
    assert(list[0] == items[0][0]);
    utf8_first(list);
    assert(body[0] == list[0] as u8);
    no_blank(body);
}

proof fn numbers_in_array(n: nat)
    ensures
        reads_in_array(dec(n), JsonV::Num(numeral(n))),
        begins_well(dec(n)),
{
    assert forall|sep: u8, rest: Seq<u8>| sep == COMMA || sep == CLOSE_BRACKET implies #[trigger] take_value(
        encode_utf8(dec(n)) + (seq![sep] + rest),
    ) == Some((JsonV::Num(numeral(n)), seq![sep] + rest)) by {
        numeral_reads_back(n, seq![sep] + rest);
    }
    dec_digits(n);
    assert(crate::json::is_digit(ascii(dec(n))[0]));
    assert(ascii(dec(n))[0] == dec(n)[0] as u8);
    assert((dec(n)[0] as u32) < 0x80);
}

proof fn strings_in_array(s: Seq<char>)
    ensures
        reads_in_array(quoted(s), JsonV::Str(s)),
        begins_well(quoted(s)),
{
    assert forall|sep: u8, rest: Seq<u8>| sep == COMMA || sep == CLOSE_BRACKET implies #[trigger] take_value(
        encode_utf8(quoted(s)) + (seq![sep] + rest),
    ) == Some((JsonV::Str(s), seq![sep] + rest)) by {
        string_reads_back(s, seq![sep] + rest);
    }
    string_reads_back(s, Seq::empty());
}

// ----------------------------------------------------------------------
// What an author signs
// ----------------------------------------------------------------------

/// The text whose digest is an event's id holds the author, the time, the kind, the tags and the content, each in
/// full: a reader finds them all in it, so no two events that differ in any of them share it.
pub proof fn ids_cover_the_event(pubkey: Seq<u8>, created_at: u64, kind: u32, tags: Seq<Seq<Seq<char>>>, content: Seq<char>)
    ensures
        json_of(encode_utf8(event_text(pubkey, created_at, kind, tags, content))) == Some(
            JsonV::Arr(
                seq![
                    JsonV::Num(numeral(0)),
                    JsonV::Str(hex(pubkey)),
                    JsonV::Num(numeral(created_at as nat)),
                    JsonV::Num(numeral(kind as nat)),
                    JsonV::Arr(string_lists(tags)),
                    JsonV::Str(content),
                ],
            ),
        ),
{
    let items = seq![
        dec(0),
        quoted(hex(pubkey)),
        dec(created_at as nat),
        dec(kind as nat),
        tags_json(tags),
        quoted(content),
    ];
    let vs = seq![
        JsonV::Num(numeral(0)),
        JsonV::Str(hex(pubkey)),
        JsonV::Num(numeral(created_at as nat)),
        JsonV::Num(numeral(kind as nat)),
        JsonV::Arr(string_lists(tags)),
        JsonV::Str(content),
    ];
    numbers_in_array(0);
    numbers_in_array(created_at as nat);
    numbers_in_array(kind as nat);
    strings_in_array(hex(pubkey));
    strings_in_array(content);
    assert(reads_in_array(tags_json(tags), JsonV::Arr(string_lists(tags)))) by {
        assert forall|sep: u8, rest: Seq<u8>| sep == COMMA || sep == CLOSE_BRACKET implies #[trigger] take_value(
            encode_utf8(tags_json(tags)) + (seq![sep] + rest),
        ) == Some((JsonV::Arr(string_lists(tags)), seq![sep] + rest)) by {
            tags_read_back(tags, seq![sep] + rest);
        }
    }
    assert forall|i: int| 0 <= i < items.len() implies reads_in_array(#[trigger] items[i], vs[i]) by {
        if i == 0 {
        } else if i == 1 {
        } else if i == 2 {
        } else if i == 3 {
        } else if i == 4 {
        } else {
        }
    }
    array_reads(items, vs, Seq::empty());
    six(items);
    let text = event_text(pubkey, created_at, kind, tags, content);
    assert(dec(0) =~= seq!['0']);
    assert(text =~= bracketed(comma_list(items)));
    assert(encode_utf8(text) + Seq::<u8>::empty() =~= encode_utf8(text));
}

proof fn six(t: Seq<Seq<char>>)
    requires
        t.len() == 6,
    ensures
        comma_list(t) == t[0] + seq![','] + t[1] + seq![','] + t[2] + seq![','] + t[3] + seq![','] + t[4] + seq![','] + t[5],
{
    reveal_with_fuel(comma_list, 7);
    let a = t.drop_first();
    let b = a.drop_first();
    let c = b.drop_first();
    let d = c.drop_first();
    let e = d.drop_first();
    assert(a[0] == t[1] && b[0] == t[2] && c[0] == t[3] && d[0] == t[4] && e[0] == t[5]);
    assert(comma_list(e) == t[5]);
    assert(comma_list(d) == t[4] + (seq![','] + t[5]));
    assert(comma_list(c) == t[3] + (seq![','] + comma_list(d)));
    assert(comma_list(b) == t[2] + (seq![','] + comma_list(c)));
    assert(comma_list(a) == t[1] + (seq![','] + comma_list(b)));
    assert(comma_list(t) =~= t[0] + seq![','] + t[1] + seq![','] + t[2] + seq![','] + t[3] + seq![','] + t[4] + seq![','] + t[5]);
}

/// The message that publishes an event reads as the word for it and the event, in full.
pub proof fn published_events_read_back(e: EventV)
    requires
        event_fits(e),
    ensures
        json_of(encode_utf8(event_frame(e))) matches Some(JsonV::Arr(xs)) && xs.len() == 2 && xs[0] == JsonV::Str("EVENT"@)
            && crate::nostr::event_in(xs[1]) == Some(e),
{
    let word = "EVENT"@;
    let ev = JsonV::Obj(event_entries(e));
    event_reads(e, Seq::empty());
    let items = seq![quoted(word), event_json(e)];
    let vs = seq![JsonV::Str(word), ev];
    strings_in_array(word);
    assert(reads_in_array(event_json(e), ev)) by {
        assert forall|sep: u8, rest: Seq<u8>| sep == COMMA || sep == CLOSE_BRACKET implies #[trigger] take_value(
            encode_utf8(event_json(e)) + (seq![sep] + rest),
        ) == Some((ev, seq![sep] + rest)) by {
            event_reads(e, seq![sep] + rest);
        }
    }
    assert forall|i: int| 0 <= i < items.len() implies reads_in_array(#[trigger] items[i], vs[i]) by {
        if i == 0 {
        } else {
        }
    }
    array_reads(items, vs, Seq::empty());
    event_words();
    two(items);
    let text = event_frame(e);
    event_framing(event_json(e));
    assert(text == bracketed(comma_list(items)));
    assert(encode_utf8(text) + Seq::<u8>::empty() =~= encode_utf8(text));
}

proof fn event_words()
    ensures
        quoted("EVENT"@) == seq!['"'] + "EVENT"@ + seq!['"'],
{
    reveal_strlit("EVENT");
    let word = "EVENT"@;
    assert(word[0] == 'E' && word[1] == 'V' && word[2] == 'E' && word[3] == 'N' && word[4] == 'T' && word.len() == 5);
    plain_quote(word);
}

proof fn two(t: Seq<Seq<char>>)
    requires
        t.len() == 2,
    ensures
        comma_list(t) == t[0] + (seq![','] + t[1]),
{
    let a = t.drop_first();
    assert(a[0] == t[1]);
    assert(comma_list(a) == t[1]);
}

proof fn event_framing(event: Seq<char>)
    ensures
        "[\"EVENT\","@ + event + "]"@ == bracketed((seq!['"'] + "EVENT"@ + seq!['"']) + (seq![','] + event)),
{
    reveal_strlit("[\"EVENT\",");
    reveal_strlit("]");
    reveal_strlit("EVENT");
    assert("[\"EVENT\","@ + event + "]"@ =~= bracketed((seq!['"'] + "EVENT"@ + seq!['"']) + (seq![','] + event)));
}

/// Is it a character that a string literal holds as it is: a letter, a digit or a dash?
pub open spec fn is_plain(c: char) -> bool {
    ('0' <= c <= '9') || ('a' <= c <= 'z') || ('A' <= c <= 'Z') || c == '-'
}

proof fn plain_quote(s: Seq<char>)
    requires
        forall|i: int| 0 <= i < s.len() ==> is_plain(#[trigger] s[i]),
    ensures
        quoted(s) == seq!['"'] + s + seq!['"'],
{
    plain_escape(s);
}

proof fn plain_escape(s: Seq<char>)
    requires
        forall|i: int| 0 <= i < s.len() ==> is_plain(#[trigger] s[i]),
    ensures
        escaped_all(s) == s,
    decreases s.len(),
{
    if s.len() > 0 {
        let rest = s.drop_first();
        assert forall|i: int| 0 <= i < rest.len() implies is_plain(#[trigger] rest[i]) by {
            assert(rest[i] == s[i + 1]);
        }
        plain_escape(rest);
        assert(is_plain(s[0]));
        assert(escaped(s[0]) =~= seq![s[0]]);
        assert(seq![s[0]] + rest =~= s);
    } else {
        assert(s =~= Seq::empty());
    }
}

// ----------------------------------------------------------------------
// Subscriptions
// ----------------------------------------------------------------------

/// Numbers as JSON values.
pub open spec fn numbers(v: Seq<u32>) -> Seq<JsonV> {
    Seq::new(v.len(), |i: int| JsonV::Num(numeral(v[i] as nat)))
}

proof fn numbers_read(v: Seq<u32>)
    requires
        v.len() > 0,
    ensures
        reads_as(bracketed(comma_list(numerals(v))), JsonV::Arr(numbers(v))),
{
    let items = numerals(v);
    let vs = numbers(v);
    assert forall|i: int| 0 <= i < items.len() implies reads_in_array(#[trigger] items[i], vs[i]) by {
        numbers_in_array(v[i] as nat);
    }
    numbers_in_array(v[0] as nat);
    assert forall|sep: u8, rest: Seq<u8>| sep == COMMA || sep == CLOSE_BRACE implies #[trigger] take_value(
        encode_utf8(bracketed(comma_list(items))) + (seq![sep] + rest),
    ) == Some((JsonV::Arr(vs), seq![sep] + rest)) by {
        array_reads(items, vs, seq![sep] + rest);
    }
}

proof fn lists_read(t: Seq<Seq<char>>)
    ensures
        reads_as(bracketed(quoted_list(t)), JsonV::Arr(strings(t))),
{
    assert forall|sep: u8, rest: Seq<u8>| sep == COMMA || sep == CLOSE_BRACE implies #[trigger] take_value(
        encode_utf8(bracketed(quoted_list(t))) + (seq![sep] + rest),
    ) == Some((JsonV::Arr(strings(t)), seq![sep] + rest)) by {
        strings_read_back(t, seq![sep] + rest);
    }
}

proof fn one_more_entered(t: Map<Seq<char>, JsonV>, ms: Seq<(Seq<char>, Seq<char>)>, vs: Seq<JsonV>, m: (Seq<char>, Seq<char>), v: JsonV)
    requires
        ms.len() == vs.len(),
    ensures
        entered(t, ms.push(m), vs.push(v)) == entered(t, ms, vs).insert(m.0, v),
    decreases ms.len(),
{
    let (a, b) = (ms.push(m), vs.push(v));
    if ms.len() == 0 {
        assert(a.drop_first() =~= Seq::empty());
        assert(a[0] == m && b[0] == v);
        assert(entered(t.insert(m.0, v), a.drop_first(), b.drop_first()) == t.insert(m.0, v));
    } else {
        assert(a.drop_first() =~= ms.drop_first().push(m));
        assert(b.drop_first() =~= vs.drop_first().push(v));
        assert(a[0] == ms[0] && b[0] == vs[0]);
        one_more_entered(t.insert(ms[0].0, vs[0]), ms.drop_first(), vs.drop_first(), m, v);
    }
}

spec fn with_value(vs: Seq<JsonV>, on: bool, v: JsonV) -> Seq<JsonV> {
    if on {
        vs.push(v)
    } else {
        vs
    }
}

spec fn with_entry(m: Map<Seq<char>, JsonV>, on: bool, name: Seq<char>, v: JsonV) -> Map<Seq<char>, JsonV> {
    if on {
        m.insert(name, v)
    } else {
        m
    }
}

proof fn member_added(
    ms: Seq<(Seq<char>, Seq<char>)>,
    vs: Seq<JsonV>,
    on: bool,
    name: Seq<char>,
    value: Seq<char>,
    v: JsonV,
)
    requires
        members_read(ms, vs),
        on ==> reads_as(value, v),
    ensures
        members_read(with_member(ms, on, name, value), with_value(vs, on, v)),
        entered(Map::empty(), with_member(ms, on, name, value), with_value(vs, on, v)) == with_entry(
            entered(Map::empty(), ms, vs),
            on,
            name,
            v,
        ),
{
    if on {
        let a = ms.push((name, value));
        let b = vs.push(v);
        assert forall|i: int| 0 <= i < a.len() implies reads_as((#[trigger] a[i]).1, b[i]) by {
            if i < ms.len() {
                assert(a[i] == ms[i]);
                assert(reads_as(ms[i].1, vs[i]));
            }
        }
        one_more_entered(Map::empty(), ms, vs, (name, value), v);
    }
}

/// What a filter asks a relay for, as it is read: the kinds, the topics, the recipients and the time, each under its
/// name and only if the filter names any.
spec fn asked_for(f: FilterV) -> Map<Seq<char>, JsonV> {
    let a = with_entry(Map::empty(), f.kinds.len() > 0, "kinds"@, JsonV::Arr(numbers(f.kinds)));
    let b = with_entry(a, f.topics.len() > 0, "#t"@, JsonV::Arr(strings(f.topics)));
    let c = with_entry(b, f.recipients.len() > 0, "#p"@, JsonV::Arr(strings(f.recipients)));
    with_entry(c, f.since is Some, "since"@, JsonV::Num(numeral(f.since->0 as nat)))
}

proof fn filter_reads(f: FilterV, rest: Seq<u8>)
    ensures
        take_value(encode_utf8(filter_json(f)) + rest) == Some((JsonV::Obj(asked_for(f)), rest)),
{
    let none = Seq::<(Seq<char>, Seq<char>)>::empty();
    let nv = Seq::<JsonV>::empty();
    if f.kinds.len() > 0 {
        numbers_read(f.kinds);
    }
    lists_read(f.topics);
    lists_read(f.recipients);
    let time = match f.since {
        Some(t) => dec(t as nat),
        None => Seq::empty(),
    };
    if f.since is Some {
        numeral_reads(f.since->0 as nat);
    }
    let kinds = bracketed(comma_list(numerals(f.kinds)));
    let m1 = with_member(none, f.kinds.len() > 0, "kinds"@, kinds);
    let v1 = with_value(nv, f.kinds.len() > 0, JsonV::Arr(numbers(f.kinds)));
    member_added(none, nv, f.kinds.len() > 0, "kinds"@, kinds, JsonV::Arr(numbers(f.kinds)));
    let topics = bracketed(quoted_list(f.topics));
    let m2 = with_member(m1, f.topics.len() > 0, "#t"@, topics);
    let v2 = with_value(v1, f.topics.len() > 0, JsonV::Arr(strings(f.topics)));
    member_added(m1, v1, f.topics.len() > 0, "#t"@, topics, JsonV::Arr(strings(f.topics)));
    let to = bracketed(quoted_list(f.recipients));
    let m3 = with_member(m2, f.recipients.len() > 0, "#p"@, to);
    let v3 = with_value(v2, f.recipients.len() > 0, JsonV::Arr(strings(f.recipients)));
    member_added(m2, v2, f.recipients.len() > 0, "#p"@, to, JsonV::Arr(strings(f.recipients)));
    let m4 = with_member(m3, f.since is Some, "since"@, time);
    let v4 = with_value(v3, f.since is Some, JsonV::Num(numeral(f.since->0 as nat)));
    member_added(m3, v3, f.since is Some, "since"@, time, JsonV::Num(numeral(f.since->0 as nat)));
    assert(filter_members(f) == m4);
    object_reads_back(m4, v4, rest);
    assert(entered(Map::empty(), none, nv) == Map::<Seq<char>, JsonV>::empty());
}

/// A relay that reads a filter finds the kinds, the topics, the recipients and the time that it names, each in full, and
/// nothing that it does not name.
pub proof fn filters_read_back(f: FilterV)
    ensures
        json_of(encode_utf8(filter_json(f))) matches Some(JsonV::Obj(m)) && {
            &&& m.contains_key("kinds"@) <==> f.kinds.len() > 0
            &&& f.kinds.len() > 0 ==> m["kinds"@] == JsonV::Arr(numbers(f.kinds))
            &&& m.contains_key("#t"@) <==> f.topics.len() > 0
            &&& f.topics.len() > 0 ==> m["#t"@] == JsonV::Arr(strings(f.topics))
            &&& m.contains_key("#p"@) <==> f.recipients.len() > 0
            &&& f.recipients.len() > 0 ==> m["#p"@] == JsonV::Arr(strings(f.recipients))
            &&& m.contains_key("since"@) <==> f.since is Some
            &&& f.since matches Some(t) ==> m["since"@] == JsonV::Num(numeral(t as nat))
        },
{
    filter_reads(f, Seq::empty());
    assert(encode_utf8(filter_json(f)) + Seq::<u8>::empty() =~= encode_utf8(filter_json(f)));
    filter_names();
}

proof fn filter_names()
    ensures
        "kinds"@.len() == 5 && "since"@.len() == 5 && "#t"@.len() == 2 && "#p"@.len() == 2,
        "kinds"@[0] != "since"@[0],
        "#t"@[1] != "#p"@[1],
{
    reveal_strlit("kinds");
    reveal_strlit("since");
    reveal_strlit("#t");
    reveal_strlit("#p");
}

proof fn dashed_plain(kinds: Seq<u32>)
    ensures
        forall|i: int| 0 <= i < dashed(kinds).len() ==> is_plain(#[trigger] dashed(kinds)[i]),
    decreases kinds.len(),
{
    if kinds.len() > 0 {
        let h = dashed(kinds.drop_last());
        let n = kinds.last() as nat;
        dashed_plain(kinds.drop_last());
        crate::text::dec_reads_back(n);
        assert forall|i: int| 0 <= i < dashed(kinds).len() implies is_plain(#[trigger] dashed(kinds)[i]) by {
            if i < h.len() {
                assert(dashed(kinds)[i] == h[i]);
            } else if i > h.len() {
                assert(dashed(kinds)[i] == dec(n)[i - h.len() - 1]);
            }
        }
    }
}

proof fn ids_plain(asked: Seq<FilterV>, f: FilterV)
    ensures
        forall|i: int| 0 <= i < sub_id(asked, f).len() ==> is_plain(#[trigger] sub_id(asked, f)[i]),
{
    reveal_strlit("ivn");
    dashed_plain(f.kinds);
    let n = crate::webrtc::place_of(asked, f, 0);
    crate::text::dec_reads_back(n as nat);
    let name = sub_name(f.kinds);
    let id = sub_id(asked, f);
    assert forall|i: int| 0 <= i < id.len() implies is_plain(#[trigger] id[i]) by {
        if i < 3 {
            assert(id[i] == "ivn"@[i]);
        } else if i < name.len() {
            assert(id[i] == dashed(f.kinds)[i - 3]);
        } else if i > name.len() {
            assert(id[i] == dec(n as nat)[i - name.len() - 1]);
        }
    }
}

/// The message that subscribes reads as the word for it, the subscription's id, and the filter.
pub proof fn subscriptions_read_back(asked: Seq<FilterV>, f: FilterV)
    ensures
        json_of(encode_utf8(req_frame(asked, f))) matches Some(JsonV::Arr(xs)) && xs.len() == 3 && xs[0] == JsonV::Str("REQ"@)
            && xs[1] == JsonV::Str(sub_id(asked, f)) && json_of(encode_utf8(filter_json(f))) == Some(xs[2]),
{
    let word = "REQ"@;
    let id = sub_id(asked, f);
    let v = JsonV::Obj(asked_for(f));
    filter_reads(f, Seq::empty());
    assert(encode_utf8(filter_json(f)) + Seq::<u8>::empty() =~= encode_utf8(filter_json(f)));
    let items = seq![quoted(word), quoted(id), filter_json(f)];
    let vs = seq![JsonV::Str(word), JsonV::Str(id), v];
    strings_in_array(word);
    strings_in_array(id);
    assert(reads_in_array(filter_json(f), v)) by {
        assert forall|sep: u8, rest: Seq<u8>| sep == COMMA || sep == CLOSE_BRACKET implies #[trigger] take_value(
            encode_utf8(filter_json(f)) + (seq![sep] + rest),
        ) == Some((v, seq![sep] + rest)) by {
            filter_reads(f, seq![sep] + rest);
        }
    }
    assert forall|i: int| 0 <= i < items.len() implies reads_in_array(#[trigger] items[i], vs[i]) by {
        if i == 0 {
        } else if i == 1 {
        } else {
        }
    }
    array_reads(items, vs, Seq::empty());
    ids_plain(asked, f);
    reveal_strlit("REQ");
    plain_quote(word);
    plain_quote(id);
    three(items);
    framing(id, filter_json(f));
    let text = req_frame(asked, f);
    assert(text == bracketed(comma_list(items)));
    assert(encode_utf8(text) + Seq::<u8>::empty() =~= encode_utf8(text));
}

proof fn three(t: Seq<Seq<char>>)
    requires
        t.len() == 3,
    ensures
        comma_list(t) == t[0] + (seq![','] + (t[1] + (seq![','] + t[2]))),
{
    let a = t.drop_first();
    let b = a.drop_first();
    assert(a[0] == t[1] && b[0] == t[2]);
    assert(comma_list(b) == t[2]);
    assert(comma_list(a) == t[1] + (seq![','] + t[2]));
}

proof fn framing(id: Seq<char>, filter: Seq<char>)
    ensures
        "[\"REQ\",\""@ + id + "\","@ + filter + "]"@ == bracketed(
            (seq!['"'] + "REQ"@ + seq!['"']) + (seq![','] + ((seq!['"'] + id + seq!['"']) + (seq![','] + filter))),
        ),
{
    reveal_strlit("[\"REQ\",\"");
    reveal_strlit("\",");
    reveal_strlit("]");
    reveal_strlit("REQ");
    assert("[\"REQ\",\""@ + id + "\","@ + filter + "]"@ =~= bracketed(
        (seq!['"'] + "REQ"@ + seq!['"']) + (seq![','] + ((seq!['"'] + id + seq!['"']) + (seq![','] + filter))),
    ));
}

} // verus!
