//! Region beacons and room codes: how a host is found.
//!
//! A host publishes one beacon per region it runs. A public beacon also carries the global
//! topic; that of an invite-only room does not, so only a peer who knows the room code can
//! derive its topic and discover it.

use crate::crypto::{joined, parts_of, sha256, sha256_of, Identity, PubKey, ZERO_KEY};
use crate::json::{
    first_member, json_of, member_joins, member_json, next_member, number_text, object_json, parse, quoted, quoted_hex,
    quoted_text, six_members, tags_view, texts, Json, JsonV,
};
use crate::nostr::{
    event_made, event_valid, get_key, get_num, get_str, key_member, num_member, region_topic, str_member, tagged, topic_of, Event,
    EventV, GLOBAL_TOPIC, KIND_BEACON,
};
use crate::text::{chars_of, dec, hex, hex_char, hex_digit, parse_uint_str, push_text, text_of, uint_value};
use vstd::prelude::*;
use vstd::utf8::encode_utf8;

verus! {

#[derive(Clone, Debug, PartialEq)]
pub struct Beacon {
    pub region: String,
    pub host: PubKey,
    pub tick: u32,
    pub players: u32,
    /// world genesis hash: pins which world this region is, so a joiner can't be lured onto a
    /// forked timeline
    pub genesis: u64,
    /// identity key of the settler who currently controls the region; all-zero if nobody does
    pub controller: PubKey,
    /// the controller's display name (for the map)
    pub controller_name: String,
    /// invite-only room: the beacon carries only its (code-derived) region topic
    pub private: bool,
}

/// A beacon by its contents.
#[verifier::ext_equal]
pub struct BeaconV {
    pub region: Seq<char>,
    pub host: Seq<u8>,
    pub tick: u32,
    pub players: u32,
    pub genesis: u64,
    pub controller: Seq<u8>,
    pub controller_name: Seq<char>,
    pub private: bool,
}

impl View for Beacon {
    type V = BeaconV;

    open spec fn view(&self) -> BeaconV {
        BeaconV {
            region: self.region@,
            host: self.host@,
            tick: self.tick,
            players: self.players,
            genesis: self.genesis,
            controller: self.controller@,
            controller_name: self.controller_name@,
            private: self.private,
        }
    }
}

/// The low `width` hexadecimal digits of `n`, lower case.
pub open spec fn hex_fixed(n: nat, width: nat) -> Seq<char>
    decreases width,
{
    if width == 0 {
        Seq::empty()
    } else {
        hex_fixed(n / 16, (width - 1) as nat).push(hex_digit((n % 16) as int))
    }
}

/// The members of a beacon's content.
pub open spec fn beacon_members(b: BeaconV) -> Seq<(Seq<char>, Seq<char>)> {
    seq![
        ("region"@, quoted(b.region)),
        ("tick"@, dec(b.tick as nat)),
        ("players"@, dec(b.players as nat)),
        ("genesis"@, quoted(hex_fixed(b.genesis as nat, 16))),
        ("ctrl"@, quoted(hex(b.controller))),
        ("ctrl_name"@, quoted(b.controller_name)),
    ]
}

/// The content of a beacon's event.
pub open spec fn beacon_content(b: BeaconV) -> Seq<char> {
    object_json(beacon_members(b))
}

/// The tags of a beacon's event: the region's own topic (targeted join) and, in a public room,
/// the global one.
pub open spec fn beacon_tags(b: BeaconV) -> Seq<Seq<Seq<char>>> {
    if b.private {
        seq![seq!["t"@, topic_of(b.region)]]
    } else {
        seq![seq!["t"@, topic_of(b.region)], seq!["t"@, GLOBAL_TOPIC@]]
    }
}

/// The beacon in a beacon event; the controller is optional, and a beacon without the global
/// topic was published as invite-only.
pub open spec fn beacon_in(e: EventV) -> Option<BeaconV> {
    if e.kind != KIND_BEACON {
        None
    } else {
        match json_of(encode_utf8(e.content)) {
            Some(JsonV::Obj(m)) => match (
                str_member(m, "region"@),
                num_member(m, "tick"@),
                num_member(m, "players"@),
                str_member(m, "genesis"@),
            ) {
                (Some(region), Some(tick), Some(players), Some(g)) => match uint_value(g, 16, u64::MAX as nat) {
                    Some(genesis) => Some(
                        BeaconV {
                            region,
                            host: e.pubkey,
                            tick: (tick % 0x1_0000_0000) as u32,
                            players: (players % 0x1_0000_0000) as u32,
                            genesis: genesis as u64,
                            controller: match key_member(m, "ctrl"@) {
                                Some(k) => k,
                                None => ZERO_KEY@,
                            },
                            controller_name: match str_member(m, "ctrl_name"@) {
                                Some(s) => s,
                                None => Seq::empty(),
                            },
                            private: !tagged(e.tags, "t"@, GLOBAL_TOPIC@),
                        },
                    ),
                    None => None,
                },
                _ => None,
            },
            _ => None,
        }
    }
}

pub fn push_hex_fixed(out: &mut String, n: u64, width: usize)
    ensures
        final(out)@ == old(out)@ + hex_fixed(n as nat, width as nat),
    decreases width,
{
    if width > 0 {
        push_hex_fixed(out, n / 16, width - 1);
        out.push(hex_char((n % 16) as u8));
    }
    proof {
        assert(out@ =~= old(out)@ + hex_fixed(n as nat, width as nat));
    }
}

fn two(a: String, b: String) -> (r: Vec<String>)
    ensures
        texts(r@) == seq![a@, b@],
{
    let mut r: Vec<String> = Vec::new();
    r.push(a);
    r.push(b);
    proof {
        assert(texts(r@) =~= seq![a@, b@]);
    }
    r
}

impl Beacon {
    fn content(&self) -> (s: String)
        ensures
            s@ == beacon_content(self@),
    {
        let mut genesis = String::new();
        push_hex_fixed(&mut genesis, self.genesis, 16);
        proof {
            assert(genesis@ =~= hex_fixed(self.genesis as nat, 16));
        }
        let mut s = String::new();
        let ghost ms = beacon_members(self@);
        first_member(&mut s, "region", quoted_text(self.region.as_str()).as_str());
        let ghost mut p = member_json(ms[0].0, ms[0].1);
        proof {
            assert(s@ =~= seq!['{'] + p);
        }
        next_member(&mut s, "tick", number_text(self.tick as u64).as_str());
        proof {
            member_joins(p, member_json(ms[1].0, ms[1].1));
            p = (p + seq![',']) + member_json(ms[1].0, ms[1].1);
        }
        next_member(&mut s, "players", number_text(self.players as u64).as_str());
        proof {
            member_joins(p, member_json(ms[2].0, ms[2].1));
            p = (p + seq![',']) + member_json(ms[2].0, ms[2].1);
        }
        next_member(&mut s, "genesis", quoted_text(genesis.as_str()).as_str());
        proof {
            member_joins(p, member_json(ms[3].0, ms[3].1));
            p = (p + seq![',']) + member_json(ms[3].0, ms[3].1);
        }
        next_member(&mut s, "ctrl", quoted_hex(self.controller.as_slice()).as_str());
        proof {
            member_joins(p, member_json(ms[4].0, ms[4].1));
            p = (p + seq![',']) + member_json(ms[4].0, ms[4].1);
        }
        next_member(&mut s, "ctrl_name", quoted_text(self.controller_name.as_str()).as_str());
        proof {
            member_joins(p, member_json(ms[5].0, ms[5].1));
            p = (p + seq![',']) + member_json(ms[5].0, ms[5].1);
            six_members(ms);
        }
        s.push('}');
        proof {
            assert(s@ =~= seq!['{'] + p + seq!['}']);
        }
        s
    }

    fn tags(&self) -> (r: Vec<Vec<String>>)
        ensures
            tags_view(r@) == beacon_tags(self@),
    {
        let mut r: Vec<Vec<String>> = Vec::new();
        r.push(two(text_of("t"), region_topic(self.region.as_str())));
        if !self.private {
            r.push(two(text_of("t"), text_of(GLOBAL_TOPIC)));
        }
        proof {
            assert(tags_view(r@) =~= beacon_tags(self@));
        }
        r
    }

    /// A copy with the same contents.
    pub fn dup(&self) -> (r: Beacon)
        ensures
            r@ == self@,
    {
        Beacon {
            region: self.region.clone(),
            host: self.host,
            tick: self.tick,
            players: self.players,
            genesis: self.genesis,
            controller: self.controller,
            controller_name: self.controller_name.clone(),
            private: self.private,
        }
    }

    /// Publish-ready event: tagged with the region topic, content is the beacon fields as
    /// compact JSON. Nothing where the curve library refuses to sign.
    pub fn to_event(&self, id: &Identity, created_at: u64) -> (r: Option<Event>)
        ensures
            event_made(
                id.secret(),
                id.public(),
                created_at,
                KIND_BEACON,
                beacon_tags(self@),
                beacon_content(self@),
                r,
            ),
            r matches Some(ev) ==> ev@.kind == KIND_BEACON && ev@.pubkey == id.public() && ev@.tags == beacon_tags(self@)
                && ev@.content == beacon_content(self@) && ev@.created_at == created_at,
            r matches Some(ev) ==> id.wf() ==> event_valid(ev@),
    {
        Event::create(id, created_at, KIND_BEACON, self.tags(), self.content())
    }

    /// Recover a beacon from a (verified) beacon event.
    pub fn from_event(ev: &Event) -> (r: Option<Beacon>)
        ensures
            match beacon_in(ev@) {
                Some(b) => r is Some && r->0@ == b,
                None => r is None,
            },
    {
        if ev.kind != KIND_BEACON {
            return None;
        }
        let v: Json = parse(ev.content.as_str())?;
        let obj: &Vec<(String, Json)> = v.as_obj()?;
        let region: &str = get_str(obj, "region")?;
        let tick: u64 = get_num(obj, "tick")?;
        let players: u64 = get_num(obj, "players")?;
        let genesis: u64 = parse_uint_str(get_str(obj, "genesis")?, 16, 0xFFFF_FFFF_FFFF_FFFF)?;
        let controller: PubKey = match get_key(obj, "ctrl") {
            Some(k) => k,
            None => ZERO_KEY,
        };
        let controller_name: String = match get_str(obj, "ctrl_name") {
            Some(s) => text_of(s),
            None => String::new(),
        };
        let private: bool = !ev.has_tag("t", GLOBAL_TOPIC);
        Some(
            Beacon {
                region: text_of(region),
                host: ev.pubkey,
                tick: (tick % 0x1_0000_0000) as u32,
                players: (players % 0x1_0000_0000) as u32,
                genesis,
                controller,
                controller_name,
                private,
            },
        )
    }
}

// ----------------------------------------------------------------------
// Room codes
// ----------------------------------------------------------------------

/// Crockford base32 (32 symbols, excludes I/L/O/U): reads cleanly aloud.
pub const ROOM_ALPHABET: &'static str = "0123456789ABCDEFGHJKMNPQRSTVWXYZ";

/// The number that bytes stand for, most significant first.
pub open spec fn be_value(b: Seq<u8>) -> nat
    decreases b.len(),
{
    if b.len() == 0 {
        0
    } else {
        be_value(b.drop_last()) * 256 + b.last() as nat
    }
}

/// The low `width` base32 symbols of `n`.
pub open spec fn base32(n: nat, width: nat) -> Seq<char>
    decreases width,
{
    if width == 0 {
        Seq::empty()
    } else {
        base32(n / 32, (width - 1) as nat).push(ROOM_ALPHABET@[(n % 32) as int])
    }
}

/// The room code of a key: the first forty bits of a digest of it, as `XXXX-XXXX`.
pub open spec fn room_code_of(pk: Seq<u8>) -> Seq<char> {
    let n = be_value(sha256_of(encode_utf8("ironvein-roomcode-v1"@) + pk).take(5));
    base32(n / 0x10_0000, 4) + seq!['-'] + base32(n, 4)
}

pub open spec fn is_alnum(c: char) -> bool {
    ('0' <= c <= '9') || ('A' <= c <= 'Z') || ('a' <= c <= 'z')
}

pub open spec fn upper(c: char) -> char {
    if 'a' <= c <= 'z' {
        (c as u32 - 32) as char
    } else {
        c
    }
}

pub open spec fn lower(c: char) -> char {
    if 'A' <= c <= 'Z' {
        (c as u32 + 32) as char
    } else {
        c
    }
}

/// A room code as it counts: its letters and digits, in upper case.
pub open spec fn normal_code(s: Seq<char>) -> Seq<char>
    decreases s.len(),
{
    if s.len() == 0 {
        Seq::empty()
    } else if is_alnum(s.last()) {
        normal_code(s.drop_last()).push(upper(s.last()))
    } else {
        normal_code(s.drop_last())
    }
}

pub open spec fn upper_hex_digit(d: int) -> char {
    if d < 10 {
        (48 + d) as char
    } else {
        (55 + d) as char
    }
}

/// Two upper-case hexadecimal digits per byte.
pub open spec fn upper_hex(b: Seq<u8>) -> Seq<char>
    decreases b.len(),
{
    if b.len() == 0 {
        Seq::empty()
    } else {
        upper_hex(b.drop_last()).push(upper_hex_digit(b.last() as int / 16)).push(upper_hex_digit(b.last() as int % 16))
    }
}

/// The private region behind a room code.
pub open spec fn code_region(code: Seq<char>) -> Seq<char> {
    "RM"@ + upper_hex(sha256_of(encode_utf8("ironvein-room-v1"@) + encode_utf8(normal_code(code))).take(5))
}

fn digest2(a: &[u8], b: &[u8]) -> (r: [u8; 32])
    ensures
        r@ == sha256_of(a@ + b@),
{
    let parts: [&[u8]; 2] = [a, b];
    proof {
        let ps = parts_of(parts@);
        reveal_with_fuel(joined, 3);
        assert(ps.drop_last().drop_last() =~= Seq::<Seq<u8>>::empty());
        assert(joined(ps) =~= a@ + b@);
    }
    sha256(parts.as_slice())
}

fn push_base32(out: &mut String, n: u64, width: usize)
    ensures
        final(out)@ == old(out)@ + base32(n as nat, width as nat),
    decreases width,
{
    if width > 0 {
        push_base32(out, n / 32, width - 1);
        let symbols: Vec<char> = chars_of(ROOM_ALPHABET);
        proof {
            reveal_strlit("0123456789ABCDEFGHJKMNPQRSTVWXYZ");
        }
        out.push(symbols[(n % 32) as usize]);
    }
    proof {
        assert(out@ =~= old(out)@ + base32(n as nat, width as nat));
    }
}

/// A short, shareable room code derived from a host's identity key: stable, so it is your
/// colony's code. Forty bits make eight base32 characters, grouped `XXXX-XXXX`.
pub fn host_room_code(pk: &PubKey) -> (r: String)
    ensures
        r@ == room_code_of(pk@),
{
    let h: [u8; 32] = digest2("ironvein-roomcode-v1".as_bytes(), pk.as_slice());
    let mut n: u64 = 0;
    let mut i: usize = 0;
    while i < 5
        invariant
            i <= 5,
            n as nat == be_value(h@.take(i as int)),
            i == 0 ==> n == 0,
            i == 1 ==> n < 0x100,
            i == 2 ==> n < 0x1_0000,
            i == 3 ==> n < 0x100_0000,
            i == 4 ==> n < 0x1_0000_0000,
        decreases 5 - i,
    {
        proof {
            assert(h@.take(i + 1).drop_last() =~= h@.take(i as int));
        }
        n = n * 256 + h[i] as u64;
        i = i + 1;
    }
    let mut s = String::new();
    push_base32(&mut s, n / 0x10_0000, 4);
    s.push('-');
    push_base32(&mut s, n, 4);
    proof {
        assert(s@ =~= room_code_of(pk@));
    }
    s
}

fn normalize(code: &str) -> (r: String)
    ensures
        r@ == normal_code(code@),
{
    let v: Vec<char> = chars_of(code);
    let mut r = String::new();
    let mut i: usize = 0;
    while i < v.len()
        invariant
            i <= v@.len(),
            r@ == normal_code(v@.take(i as int)),
        decreases v@.len() - i,
    {
        let c: char = v[i];
        proof {
            assert(v@.take(i + 1).drop_last() =~= v@.take(i as int));
            assert(v@.take(i + 1).last() == c);
        }
        if 'a' <= c && c <= 'z' {
            let n: u32 = c as u32;
            r.push(((n - 32) as u8) as char);
        } else if ('0' <= c && c <= '9') || ('A' <= c && c <= 'Z') {
            r.push(c);
        }
        i = i + 1;
    }
    proof {
        assert(v@.take(i as int) =~= v@);
    }
    r
}

/// Map a (typed or generated) room code to its private region id: the cryptographic meeting
/// place. Both host and joiner derive the same topic from the same code without ever putting
/// the code on the wire. Punctuation, spacing and case are ignored.
pub fn room_code_region(code: &str) -> (r: String)
    ensures
        r@ == code_region(code@),
{
    let norm: String = normalize(code);
    let h: [u8; 32] = digest2("ironvein-room-v1".as_bytes(), norm.as_str().as_bytes());
    let mut s = String::new();
    push_text(&mut s, "RM");
    let mut i: usize = 0;
    proof {
        assert(s@ =~= "RM"@ + upper_hex(h@.take(0)));
    }
    while i < 5
        invariant
            i <= 5,
            s@ == "RM"@ + upper_hex(h@.take(i as int)),
        decreases 5 - i,
    {
        let b: u8 = h[i];
        s.push(upper_hex_char(b / 16));
        s.push(upper_hex_char(b % 16));
        proof {
            assert(h@.take(i + 1).drop_last() =~= h@.take(i as int));
            assert(s@ =~= "RM"@ + upper_hex(h@.take(i + 1)));
        }
        i = i + 1;
    }
    s
}

fn upper_hex_char(d: u8) -> (c: char)
    requires
        d < 16,
    ensures
        c == upper_hex_digit(d as int),
{
    if d < 10 {
        (48u8 + d) as char
    } else {
        (55u8 + d) as char
    }
}

} // verus!
