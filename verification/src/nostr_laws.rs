//! What is published can be read back.

use crate::beacon::{
    base32, beacon_content, beacon_in, beacon_members, beacon_tags, code_region, hex_fixed, is_alnum, lower, normal_code, room_code_of,
    upper, BeaconV, ROOM_ALPHABET,
};
use crate::crypto::{hex_reads_back, key_hex_reads_back};
use crate::json::{json_of, take_value, JsonV};
use crate::json_laws::{
    entered, numeral, numeral_reads, object_reads_back, reads_as, string_lists, string_reads, strings, tags_read,
};
use crate::nostr::{
    event_in, event_json, event_members, is_tag, key_member, num_member, row_in, rows_in, sig_in, str_member,
    strings_in, tagged, topic_of, EventV, GLOBAL_TOPIC, KIND_BEACON,
};
use crate::number::integers_read_exactly;
use crate::text::{digit_value, digits_value, hex, hex_digit, uint_value};
use vstd::prelude::*;
use vstd::utf8::encode_utf8;

verus! {

proof fn hex_digit_value(d: int)
    requires
        0 <= d < 16,
    ensures
        hex_digit(d) != '+',
        digit_value(hex_digit(d)) == Some(d as nat),
{
}

proof fn sig_reads_back(sig: Seq<u8>)
    requires
        sig.len() == 64,
    ensures
        sig_in(hex(sig)) == Some(sig),
{
    hex_reads_back(sig);
}

proof fn rows_read_back(tags: Seq<Seq<Seq<char>>>)
    ensures
        rows_in(JsonV::Arr(string_lists(tags))) == Some(tags),
{
    let xs = string_lists(tags);
    assert forall|i: int| 0 <= i < xs.len() implies row_in(#[trigger] xs[i]) == Some(tags[i]) by {
        let row = strings(tags[i]);
        assert(forall|k: int| 0 <= k < row.len() ==> #[trigger] row[k] is Str);
        assert(strings_in(row)->0 =~= tags[i]);
    }
    assert(rows_in(JsonV::Arr(xs))->0 =~= tags);
}

pub open spec fn event_values(e: EventV) -> Seq<JsonV> {
    seq![
        JsonV::Str(hex(e.id)),
        JsonV::Str(hex(e.pubkey)),
        JsonV::Num(numeral(e.created_at as nat)),
        JsonV::Num(numeral(e.kind as nat)),
        JsonV::Arr(string_lists(e.tags)),
        JsonV::Str(e.content),
        JsonV::Str(hex(e.sig)),
    ]
}

proof fn event_names()
    ensures
        "id"@.len() == 2,
        "pubkey"@.len() == 6,
        "created_at"@.len() == 10,
        "kind"@.len() == 4,
        "tags"@.len() == 4,
        "content"@.len() == 7,
        "sig"@.len() == 3,
        "kind"@[0] != "tags"@[0],
{
    reveal_strlit("id");
    reveal_strlit("pubkey");
    reveal_strlit("created_at");
    reveal_strlit("kind");
    reveal_strlit("tags");
    reveal_strlit("content");
    reveal_strlit("sig");
}

proof fn entered7(ms: Seq<(Seq<char>, Seq<char>)>, vs: Seq<JsonV>)
    requires
        ms.len() == 7,
        vs.len() == 7,
    ensures
        entered(Map::empty(), ms, vs) == Map::<Seq<char>, JsonV>::empty().insert(ms[0].0, vs[0]).insert(
            ms[1].0,
            vs[1],
        ).insert(ms[2].0, vs[2]).insert(ms[3].0, vs[3]).insert(ms[4].0, vs[4]).insert(ms[5].0, vs[5]).insert(
            ms[6].0,
            vs[6],
        ),
{
    let m1 = ms.drop_first();
    let v1 = vs.drop_first();
    assert(m1[0] == ms[1] && v1[0] == vs[1]);
    entered6(Map::empty().insert(ms[0].0, vs[0]), m1, v1);
}

proof fn entered6(t: Map<Seq<char>, JsonV>, ms: Seq<(Seq<char>, Seq<char>)>, vs: Seq<JsonV>)
    requires
        ms.len() == 6,
        vs.len() == 6,
    ensures
        entered(t, ms, vs) == t.insert(ms[0].0, vs[0]).insert(ms[1].0, vs[1]).insert(ms[2].0, vs[2]).insert(
            ms[3].0,
            vs[3],
        ).insert(ms[4].0, vs[4]).insert(ms[5].0, vs[5]),
{
    reveal_with_fuel(entered, 7);
    let m1 = ms.drop_first();
    let m2 = m1.drop_first();
    let m3 = m2.drop_first();
    let m4 = m3.drop_first();
    let m5 = m4.drop_first();
    let v1 = vs.drop_first();
    let v2 = v1.drop_first();
    let v3 = v2.drop_first();
    let v4 = v3.drop_first();
    let v5 = v4.drop_first();
    assert(m1[0] == ms[1] && m2[0] == ms[2] && m3[0] == ms[3] && m4[0] == ms[4] && m5[0] == ms[5]);
    assert(v1[0] == vs[1] && v2[0] == vs[2] && v3[0] == vs[3] && v4[0] == vs[4] && v5[0] == vs[5]);
}

/// Is the event one that a relay can carry: with keys of their lengths, and a time that a JSON
/// number holds exactly?
pub open spec fn event_fits(e: EventV) -> bool {
    &&& e.id.len() == 32
    &&& e.pubkey.len() == 32
    &&& e.sig.len() == 64
    &&& e.created_at <= 0x20_0000_0000_0000
}

/// The members of an event's text, as they are read.
pub open spec fn event_entries(e: EventV) -> Map<Seq<char>, JsonV> {
    entered(Map::empty(), event_members(e), event_values(e))
}

/// The text of an event reads as an object that holds the event, whatever stands behind it.
pub proof fn event_reads(e: EventV, rest: Seq<u8>)
    requires
        event_fits(e),
    ensures
        take_value(encode_utf8(event_json(e)) + rest) == Some((JsonV::Obj(event_entries(e)), rest)),
        event_in(JsonV::Obj(event_entries(e))) == Some(e),
{
    let ms = event_members(e);
    let vs = event_values(e);
    event_names();
    string_reads(hex(e.id));
    string_reads(hex(e.pubkey));
    string_reads(hex(e.sig));
    string_reads(e.content);
    numeral_reads(e.created_at as nat);
    numeral_reads(e.kind as nat);
    tags_read(e.tags);
    assert forall|i: int| 0 <= i < ms.len() implies reads_as((#[trigger] ms[i]).1, vs[i]) by {
        if i == 0 {
        } else if i == 1 {
        } else if i == 2 {
        } else if i == 3 {
        } else if i == 4 {
        } else if i == 5 {
        } else {
        }
    }
    object_reads_back(ms, vs, rest);
    let m = entered(Map::empty(), ms, vs);
    entered7(ms, vs);
    event_members_found(e, m);
    key_hex_reads_back(e.id);
    key_hex_reads_back(e.pubkey);
    integers_read_exactly(numeral(e.created_at as nat).whole);
    integers_read_exactly(numeral(e.kind as nat).whole);
    rows_read_back(e.tags);
    sig_reads_back(e.sig);
    assert(event_in(JsonV::Obj(m))->0 =~= e);
}

/// Parsing the JSON of an event gives the event back.
pub proof fn event_reads_back(e: EventV)
    requires
        event_fits(e),
    ensures
        json_of(encode_utf8(event_json(e))) matches Some(j) && event_in(j) == Some(e),
{
    event_reads(e, Seq::empty());
    assert(encode_utf8(event_json(e)) + Seq::<u8>::empty() =~= encode_utf8(event_json(e)));
}

proof fn event_members_found(e: EventV, m: Map<Seq<char>, JsonV>)
    requires
        m == Map::<Seq<char>, JsonV>::empty().insert("id"@, JsonV::Str(hex(e.id))).insert(
            "pubkey"@,
            JsonV::Str(hex(e.pubkey)),
        ).insert("created_at"@, JsonV::Num(numeral(e.created_at as nat))).insert(
            "kind"@,
            JsonV::Num(numeral(e.kind as nat)),
        ).insert("tags"@, JsonV::Arr(string_lists(e.tags))).insert("content"@, JsonV::Str(e.content)).insert(
            "sig"@,
            JsonV::Str(hex(e.sig)),
        ),
    ensures
        m.contains_key("id"@) && m["id"@] == JsonV::Str(hex(e.id)),
        m.contains_key("pubkey"@) && m["pubkey"@] == JsonV::Str(hex(e.pubkey)),
        m.contains_key("created_at"@) && m["created_at"@] == JsonV::Num(numeral(e.created_at as nat)),
        m.contains_key("kind"@) && m["kind"@] == JsonV::Num(numeral(e.kind as nat)),
        m.contains_key("tags"@) && m["tags"@] == JsonV::Arr(string_lists(e.tags)),
        m.contains_key("content"@) && m["content"@] == JsonV::Str(e.content),
        m.contains_key("sig"@) && m["sig"@] == JsonV::Str(hex(e.sig)),
{
    event_names();
}

// ----------------------------------------------------------------------
// Beacons
// ----------------------------------------------------------------------

pub open spec fn pow16(k: nat) -> nat
    decreases k,
{
    if k == 0 {
        1
    } else {
        16 * pow16((k - 1) as nat)
    }
}

proof fn fixed_hex(n: nat, width: nat)
    requires
        n < pow16(width),
    ensures
        hex_fixed(n, width).len() == width,
        width > 0 ==> hex_fixed(n, width)[0] != '+',
        width > 0 ==> digits_value(hex_fixed(n, width), 16) == Some(n),
    decreases width,
{
    if width > 0 {
        let h = hex_fixed(n / 16, (width - 1) as nat);
        fixed_hex(n / 16, (width - 1) as nat);
        hex_digit_value((n % 16) as int);
        let s = hex_fixed(n, width);
        assert(s.drop_last() =~= h);
        if width > 1 {
            assert(s[0] == h[0]);
        } else {
            reveal_with_fuel(pow16, 2);
            assert(n / 16 == 0);
        }
    }
}

spec fn beacon_values(b: BeaconV) -> Seq<JsonV> {
    seq![
        JsonV::Str(b.region),
        JsonV::Num(numeral(b.tick as nat)),
        JsonV::Num(numeral(b.players as nat)),
        JsonV::Str(hex_fixed(b.genesis as nat, 16)),
        JsonV::Str(hex(b.controller)),
        JsonV::Str(b.controller_name),
    ]
}

proof fn beacon_names()
    ensures
        "region"@.len() == 6,
        "tick"@.len() == 4,
        "players"@.len() == 7,
        "genesis"@.len() == 7,
        "ctrl"@.len() == 4,
        "ctrl_name"@.len() == 9,
        "tick"@[0] != "ctrl"@[0],
        "players"@[0] != "genesis"@[0],
{
    reveal_strlit("region");
    reveal_strlit("tick");
    reveal_strlit("players");
    reveal_strlit("genesis");
    reveal_strlit("ctrl");
    reveal_strlit("ctrl_name");
}

proof fn beacon_members_found(b: BeaconV, m: Map<Seq<char>, JsonV>)
    requires
        m == Map::<Seq<char>, JsonV>::empty().insert("region"@, JsonV::Str(b.region)).insert(
            "tick"@,
            JsonV::Num(numeral(b.tick as nat)),
        ).insert("players"@, JsonV::Num(numeral(b.players as nat))).insert(
            "genesis"@,
            JsonV::Str(hex_fixed(b.genesis as nat, 16)),
        ).insert("ctrl"@, JsonV::Str(hex(b.controller))).insert("ctrl_name"@, JsonV::Str(b.controller_name)),
    ensures
        m.contains_key("region"@) && m["region"@] == JsonV::Str(b.region),
        m.contains_key("tick"@) && m["tick"@] == JsonV::Num(numeral(b.tick as nat)),
        m.contains_key("players"@) && m["players"@] == JsonV::Num(numeral(b.players as nat)),
        m.contains_key("genesis"@) && m["genesis"@] == JsonV::Str(hex_fixed(b.genesis as nat, 16)),
        m.contains_key("ctrl"@) && m["ctrl"@] == JsonV::Str(hex(b.controller)),
        m.contains_key("ctrl_name"@) && m["ctrl_name"@] == JsonV::Str(b.controller_name),
{
    beacon_names();
}

/// A beacon carries its region's topic, and the global topic exactly if it is public.
pub proof fn private_rooms_stay_private(b: BeaconV)
    ensures
        tagged(beacon_tags(b), "t"@, topic_of(b.region)),
        tagged(beacon_tags(b), "t"@, GLOBAL_TOPIC@) <==> !b.private,
{
    let tags = beacon_tags(b);
    reveal_strlit("ironvein-region-");
    reveal_strlit("ironvein");
    assert(topic_of(b.region).len() >= 16);
    assert(GLOBAL_TOPIC@.len() == 8);
    assert(is_tag(tags[0], "t"@, topic_of(b.region)));
    if !b.private {
        assert(is_tag(tags[1], "t"@, GLOBAL_TOPIC@));
    }
}

proof fn beacon_content_parses(b: BeaconV)
    ensures
        json_of(encode_utf8(beacon_content(b))) == Some(
            JsonV::Obj(entered(Map::empty(), beacon_members(b), beacon_values(b))),
        ),
{
    let ms = beacon_members(b);
    let vs = beacon_values(b);
    beacon_names();
    genesis_hex(b.genesis);
    string_reads(b.region);
    string_reads(b.controller_name);
    string_reads(hex(b.controller));
    string_reads(hex_fixed(b.genesis as nat, 16));
    numeral_reads(b.tick as nat);
    numeral_reads(b.players as nat);
    assert forall|i: int| 0 <= i < ms.len() implies reads_as((#[trigger] ms[i]).1, vs[i]) by {
        if i == 0 {
        } else if i == 1 {
        } else if i == 2 {
        } else if i == 3 {
        } else if i == 4 {
        } else {
        }
    }
    object_reads_back(ms, vs, Seq::empty());
    assert(encode_utf8(beacon_content(b)) + Seq::<u8>::empty() =~= encode_utf8(beacon_content(b)));
}

proof fn genesis_hex(g: u64)
    ensures
        uint_value(hex_fixed(g as nat, 16), 16, u64::MAX as nat) == Some(g as nat),
{
    assert(pow16(16) == 0x1_0000_0000_0000_0000) by {
        reveal_with_fuel(pow16, 17);
    }
    fixed_hex(g as nat, 16);
}

/// Reading the event of a beacon gives the beacon back, its private flag included.
pub proof fn beacon_reads_back(b: BeaconV, e: EventV)
    requires
        e.kind == KIND_BEACON,
        e.pubkey == b.host,
        e.tags == beacon_tags(b),
        e.content == beacon_content(b),
        b.controller.len() == 32,
    ensures
        beacon_in(e) == Some(b),
{
    let ms = beacon_members(b);
    let vs = beacon_values(b);
    beacon_content_parses(b);
    let m = entered(Map::empty(), ms, vs);
    entered6(Map::empty(), ms, vs);
    beacon_members_found(b, m);
    genesis_hex(b.genesis);
    key_hex_reads_back(b.controller);
    numeral_reads(b.tick as nat);
    numeral_reads(b.players as nat);
    integers_read_exactly(numeral(b.tick as nat).whole);
    integers_read_exactly(numeral(b.players as nat).whole);
    private_rooms_stay_private(b);
    beacon_fields(b, e, m);
}

proof fn beacon_fields(b: BeaconV, e: EventV, m: Map<Seq<char>, JsonV>)
    requires
        e.kind == KIND_BEACON,
        e.pubkey == b.host,
        json_of(encode_utf8(e.content)) == Some(JsonV::Obj(m)),
        str_member(m, "region"@) == Some(b.region),
        num_member(m, "tick"@) == Some(b.tick as nat),
        num_member(m, "players"@) == Some(b.players as nat),
        str_member(m, "genesis"@) == Some(hex_fixed(b.genesis as nat, 16)),
        uint_value(hex_fixed(b.genesis as nat, 16), 16, u64::MAX as nat) == Some(b.genesis as nat),
        key_member(m, "ctrl"@) == Some(b.controller),
        str_member(m, "ctrl_name"@) == Some(b.controller_name),
        tagged(e.tags, "t"@, GLOBAL_TOPIC@) <==> !b.private,
    ensures
        beacon_in(e) == Some(b),
{
    assert(beacon_in(e)->0 =~= b);
}

// ----------------------------------------------------------------------
// Room codes
// ----------------------------------------------------------------------

proof fn normal_concat(a: Seq<char>, b: Seq<char>)
    ensures
        normal_code(a + b) == normal_code(a) + normal_code(b),
    decreases b.len(),
{
    if b.len() == 0 {
        assert(a + b =~= a);
        assert(normal_code(a) + normal_code(b) =~= normal_code(a));
    } else {
        normal_concat(a, b.drop_last());
        assert((a + b).drop_last() =~= a + b.drop_last());
        assert(normal_code(a + b) =~= normal_code(a) + normal_code(b));
    }
}

/// Punctuation and spacing do not change the room a code leads to.
pub proof fn punctuation_is_ignored(a: Seq<char>, c: char, b: Seq<char>)
    requires
        !is_alnum(c),
    ensures
        code_region(a + seq![c] + b) == code_region(a + b),
{
    normal_concat(a + seq![c], b);
    normal_concat(a, seq![c]);
    normal_concat(a, b);
    reveal_with_fuel(normal_code, 2);
    assert(seq![c].drop_last() =~= Seq::<char>::empty());
    assert(normal_code(seq![c]) =~= Seq::<char>::empty());
    assert(normal_code(a) + normal_code(seq![c]) =~= normal_code(a));
}

proof fn case_normal(s: Seq<char>, t: Seq<char>)
    requires
        s.len() == t.len(),
        forall|i: int| 0 <= i < s.len() ==> #[trigger] t[i] == s[i] || t[i] == upper(s[i]) || t[i] == lower(s[i]),
    ensures
        normal_code(t) == normal_code(s),
    decreases s.len(),
{
    if s.len() > 0 {
        let a = s.drop_last();
        let b = t.drop_last();
        assert forall|i: int| 0 <= i < a.len() implies #[trigger] b[i] == a[i] || b[i] == upper(a[i]) || b[i] == lower(
            a[i],
        ) by {
            assert(t[i] == s[i] || t[i] == upper(s[i]) || t[i] == lower(s[i]));
        }
        case_normal(a, b);
        let c = s.last();
        let d = t.last();
        assert(t[t.len() - 1] == s[s.len() - 1] || t[t.len() - 1] == upper(s[s.len() - 1]) || t[t.len() - 1] == lower(
            s[s.len() - 1],
        ));
        same_symbol(c, d);
    }
}

proof fn same_symbol(c: char, d: char)
    requires
        d == c || d == upper(c) || d == lower(c),
    ensures
        is_alnum(c) == is_alnum(d),
        upper(c) == upper(d),
{
}

/// Neither does case: a code typed in any mixture of cases leads to the same room.
pub proof fn case_is_ignored(s: Seq<char>, t: Seq<char>)
    requires
        s.len() == t.len(),
        forall|i: int| 0 <= i < s.len() ==> #[trigger] t[i] == s[i] || t[i] == upper(s[i]) || t[i] == lower(s[i]),
    ensures
        code_region(t) == code_region(s),
{
    case_normal(s, t);
}

proof fn base32_len(n: nat, width: nat)
    ensures
        base32(n, width).len() == width,
        forall|i: int| 0 <= i < width ==> ROOM_ALPHABET@.contains(#[trigger] base32(n, width)[i]),
    decreases width,
{
    reveal_strlit("0123456789ABCDEFGHJKMNPQRSTVWXYZ");
    if width > 0 {
        base32_len(n / 32, (width - 1) as nat);
        let h = base32(n / 32, (width - 1) as nat);
        assert forall|i: int| 0 <= i < width implies ROOM_ALPHABET@.contains(#[trigger] base32(n, width)[i]) by {
            if i < h.len() {
                assert(base32(n, width)[i] == h[i]);
            } else {
                assert(ROOM_ALPHABET@[(n % 32) as int] == base32(n, width)[i]);
            }
        }
    }
}

/// A room code has nine characters: eight of the alphabet, with a dash in the middle.
pub proof fn room_codes_are_well_formed(pk: Seq<u8>)
    ensures
        room_code_of(pk).len() == 9,
        room_code_of(pk)[4] == '-',
        forall|i: int|
            0 <= i < 9 && i != 4 ==> ROOM_ALPHABET@.contains(#[trigger] room_code_of(pk)[i]),
{
    let n = crate::beacon::be_value(
        crate::crypto::sha256_of(encode_utf8("ironvein-roomcode-v1"@) + pk).take(5),
    );
    let a = base32(n / 0x10_0000, 4);
    let b = base32(n, 4);
    base32_len(n / 0x10_0000, 4);
    base32_len(n, 4);
    assert forall|i: int| 0 <= i < 9 && i != 4 implies ROOM_ALPHABET@.contains(#[trigger] room_code_of(pk)[i]) by {
        if i < 4 {
            assert(room_code_of(pk)[i] == a[i]);
        } else {
            assert(room_code_of(pk)[i] == b[i - 5]);
        }
    }
}

} // verus!
