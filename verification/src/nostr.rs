//! The serverless signaling vocabulary.
//!
//! Nostr is a gossip of signed JSON events over public relays. Exactly two event kinds are
//! used: region beacons, by which hosts are found, and signals, the encrypted WebRTC
//! handshake. Nostr's keys and signatures are those of `crypto`, so a settler's identity key
//! is its Nostr key.

use crate::crypto::{
    hex_bytes, hex_decode32, hex_encode, joined, parts_of, sha256, sha256_of, signature_by, signature_valid, unhex, unhex32,
    Identity, PubKey,
};
use crate::json::{
    entries_view, first_member, items_view, member, member_joins, member_json, next_member, number_text, object_json, quoted,
    quoted_hex, quoted_text, seven_members, tags_json, tags_text, tags_view, texts, write_string, write_tags, Json, JsonV,
};
use crate::number::u64_of;
use crate::protocol::sig_of;
use crate::text::{chars_of, dec, hex, push_dec, push_text, str_eq};
use vstd::prelude::*;
use vstd::utf8::encode_utf8;

verus! {

pub const KIND_SIGNAL: u32 = 29000;

pub const KIND_BEACON: u32 = 29001;

/// A topic every public beacon also carries, so a peer can discover all regions with one
/// subscription.
pub const GLOBAL_TOPIC: &'static str = "ironvein";

/// The tag value for a region's beacon topic, e.g. `ironvein-region-A1`.
pub open spec fn topic_of(region: Seq<char>) -> Seq<char> {
    "ironvein-region-"@ + region
}

pub fn region_topic(region: &str) -> (r: String)
    ensures
        r@ == topic_of(region@),
{
    let mut s = String::new();
    push_text(&mut s, "ironvein-region-");
    push_text(&mut s, region);
    proof {
        assert(s@ =~= topic_of(region@));
    }
    s
}

// ----------------------------------------------------------------------
// A NIP-01 event
// ----------------------------------------------------------------------

#[derive(Clone, Debug, PartialEq)]
pub struct Event {
    pub id: [u8; 32],
    pub pubkey: PubKey,
    pub created_at: u64,
    pub kind: u32,
    /// each tag is a list of strings, e.g. ["t","ironvein-region-A1"]
    pub tags: Vec<Vec<String>>,
    pub content: String,
    pub sig: [u8; 64],
}

/// An event by its contents.
#[verifier::ext_equal]
pub struct EventV {
    pub id: Seq<u8>,
    pub pubkey: Seq<u8>,
    pub created_at: u64,
    pub kind: u32,
    pub tags: Seq<Seq<Seq<char>>>,
    pub content: Seq<char>,
    pub sig: Seq<u8>,
}

impl View for Event {
    type V = EventV;

    open spec fn view(&self) -> EventV {
        EventV {
            id: self.id@,
            pubkey: self.pubkey@,
            created_at: self.created_at,
            kind: self.kind,
            tags: tags_view(self.tags@),
            content: self.content@,
            sig: self.sig@,
        }
    }
}

/// What an event's id is the digest of: the compact JSON array
/// `[0,<pubkey-hex>,<created_at>,<kind>,<tags>,<content>]`.
pub open spec fn event_text(
    pubkey: Seq<u8>,
    created_at: u64,
    kind: u32,
    tags: Seq<Seq<Seq<char>>>,
    content: Seq<char>,
) -> Seq<char> {
    seq!['[', '0', ','] + quoted(hex(pubkey)) + seq![','] + dec(created_at as nat) + seq![','] + dec(kind as nat) + seq![
        ',',
    ] + tags_json(tags) + seq![','] + quoted(content) + seq![']']
}

/// The NIP-01 id of an event's contents.
pub open spec fn event_id(e: EventV) -> Seq<u8> {
    sha256_of(encode_utf8(event_text(e.pubkey, e.created_at, e.kind, e.tags, e.content)))
}

/// The id matches the contents and the signature verifies under the pubkey.
pub open spec fn event_valid(e: EventV) -> bool {
    event_id(e) == e.id && signature_valid(e.pubkey, e.id, e.sig)
}

/// The members of an event's JSON object.
pub open spec fn event_members(e: EventV) -> Seq<(Seq<char>, Seq<char>)> {
    seq![
        ("id"@, quoted(hex(e.id))),
        ("pubkey"@, quoted(hex(e.pubkey))),
        ("created_at"@, dec(e.created_at as nat)),
        ("kind"@, dec(e.kind as nat)),
        ("tags"@, tags_json(e.tags)),
        ("content"@, quoted(e.content)),
        ("sig"@, quoted(hex(e.sig))),
    ]
}

/// The compact JSON object relays expect.
pub open spec fn event_json(e: EventV) -> Seq<char> {
    object_json(event_members(e))
}

/// First value of the first tag with the given name.
pub open spec fn tag_value(tags: Seq<Seq<Seq<char>>>, name: Seq<char>) -> Option<Seq<char>>
    decreases tags.len(),
{
    if tags.len() == 0 {
        None
    } else if tags[0].len() > 0 && tags[0][0] == name {
        if tags[0].len() > 1 {
            Some(tags[0][1])
        } else {
            None
        }
    } else {
        tag_value(tags.drop_first(), name)
    }
}

pub open spec fn is_tag(t: Seq<Seq<char>>, name: Seq<char>, value: Seq<char>) -> bool {
    t.len() > 1 && t[0] == name && t[1] == value
}

/// Does any tag with the given name have the given value?
pub open spec fn tagged(tags: Seq<Seq<Seq<char>>>, name: Seq<char>, value: Seq<char>) -> bool {
    exists|i: int| 0 <= i < tags.len() && is_tag(#[trigger] tags[i], name, value)
}

// ----------------------------------------------------------------------
// Reading events
// ----------------------------------------------------------------------

pub open spec fn str_member(m: Map<Seq<char>, JsonV>, name: Seq<char>) -> Option<Seq<char>> {
    if m.contains_key(name) {
        match m[name] {
            JsonV::Str(s) => Some(s),
            _ => None,
        }
    } else {
        None
    }
}

pub open spec fn num_member(m: Map<Seq<char>, JsonV>, name: Seq<char>) -> Option<nat> {
    if m.contains_key(name) {
        match m[name] {
            JsonV::Num(n) => Some(u64_of(n)),
            _ => None,
        }
    } else {
        None
    }
}

pub open spec fn key_member(m: Map<Seq<char>, JsonV>, name: Seq<char>) -> Option<Seq<u8>> {
    match str_member(m, name) {
        Some(s) => unhex32(s),
        None => None,
    }
}

/// The strings of an array of strings.
pub open spec fn strings_in(xs: Seq<JsonV>) -> Option<Seq<Seq<char>>> {
    if forall|i: int| 0 <= i < xs.len() ==> #[trigger] xs[i] is Str {
        Some(Seq::new(xs.len(), |i: int| xs[i]->Str_0))
    } else {
        None
    }
}

pub open spec fn row_in(j: JsonV) -> Option<Seq<Seq<char>>> {
    match j {
        JsonV::Arr(xs) => strings_in(xs),
        _ => None,
    }
}

/// The tags of an array of arrays of strings.
pub open spec fn rows_in(j: JsonV) -> Option<Seq<Seq<Seq<char>>>> {
    match j {
        JsonV::Arr(xs) => if forall|i: int| 0 <= i < xs.len() ==> row_in(#[trigger] xs[i]) is Some {
            Some(Seq::new(xs.len(), |i: int| row_in(xs[i])->0))
        } else {
            None
        },
        _ => None,
    }
}

pub open spec fn tags_member(m: Map<Seq<char>, JsonV>) -> Option<Seq<Seq<Seq<char>>>> {
    if m.contains_key("tags"@) {
        rows_in(m["tags"@])
    } else {
        None
    }
}

/// The signature in a hexadecimal text of 128 digits.
pub open spec fn sig_in(s: Seq<char>) -> Option<Seq<u8>> {
    if s.len() == 128 {
        unhex(s)
    } else {
        None
    }
}

pub open spec fn sig_member(m: Map<Seq<char>, JsonV>) -> Option<Seq<u8>> {
    match str_member(m, "sig"@) {
        Some(s) => sig_in(s),
        None => None,
    }
}

/// The event in a JSON object; nothing on any structural fault.
pub open spec fn event_in(j: JsonV) -> Option<EventV> {
    match j {
        JsonV::Obj(m) => match (
            key_member(m, "id"@),
            key_member(m, "pubkey"@),
            num_member(m, "created_at"@),
            num_member(m, "kind"@),
            tags_member(m),
            str_member(m, "content"@),
            sig_member(m),
        ) {
            (Some(id), Some(pubkey), Some(at), Some(kind), Some(tags), Some(content), Some(sig)) => Some(
                EventV {
                    id,
                    pubkey,
                    created_at: at as u64,
                    kind: (kind % 0x1_0000_0000) as u32,
                    tags,
                    content,
                    sig,
                },
            ),
            _ => None,
        },
        _ => None,
    }
}

pub fn get_str<'a>(obj: &'a Vec<(String, Json)>, name: &str) -> (r: Option<&'a str>)
    ensures
        match str_member(entries_view(obj@), name@) {
            Some(s) => r is Some && r->0@ == s,
            None => r is None,
        },
{
    match member(obj, name) {
        Some(j) => j.as_str(),
        None => None,
    }
}

pub fn get_num(obj: &Vec<(String, Json)>, name: &str) -> (r: Option<u64>)
    ensures
        match num_member(entries_view(obj@), name@) {
            Some(n) => r is Some && r->0 as nat == n,
            None => r is None,
        },
{
    match member(obj, name) {
        Some(j) => j.as_u64(),
        None => None,
    }
}

pub fn get_key(obj: &Vec<(String, Json)>, name: &str) -> (r: Option<PubKey>)
    ensures
        match key_member(entries_view(obj@), name@) {
            Some(k) => r is Some && r->0@ == k,
            None => r is None,
        },
{
    match get_str(obj, name) {
        Some(s) => hex_decode32(s),
        None => None,
    }
}

fn get_row(j: &Json) -> (r: Option<Vec<String>>)
    ensures
        match row_in(j@) {
            Some(t) => r is Some && texts(r->0@) == t,
            None => r is None,
        },
{
    let xs: &Vec<Json> = match j.as_arr() {
        Some(xs) => xs,
        None => {
            return None;
        },
    };
    let ghost vs = items_view(xs@);
    let mut out: Vec<String> = Vec::new();
    let mut i: usize = 0;
    while i < xs.len()
        invariant
            i <= xs@.len(),
            j@ == JsonV::Arr(vs),
            vs == items_view(xs@),
            out@.len() == i,
            forall|k: int| 0 <= k < i ==> #[trigger] vs[k] is Str,
            forall|k: int| 0 <= k < i ==> (#[trigger] out@[k])@ == vs[k]->Str_0,
        decreases xs@.len() - i,
    {
        proof {
            assert(vs[i as int] == xs@[i as int]@);
        }
        match xs[i].as_str() {
            Some(s) => {
                let mut t = String::new();
                push_text(&mut t, s);
                proof {
                    assert(t@ =~= s@);
                }
                out.push(t);
            },
            None => {
                return None;
            },
        }
        i = i + 1;
    }
    proof {
        assert(texts(out@) =~= strings_in(vs)->0);
    }
    Some(out)
}

fn get_tags(obj: &Vec<(String, Json)>) -> (r: Option<Vec<Vec<String>>>)
    ensures
        match tags_member(entries_view(obj@)) {
            Some(t) => r is Some && tags_view(r->0@) == t,
            None => r is None,
        },
{
    let j: &Json = match member(obj, "tags") {
        Some(j) => j,
        None => {
            return None;
        },
    };
    let xs: &Vec<Json> = match j.as_arr() {
        Some(xs) => xs,
        None => {
            return None;
        },
    };
    let ghost vs = items_view(xs@);
    let mut out: Vec<Vec<String>> = Vec::new();
    let mut i: usize = 0;
    while i < xs.len()
        invariant
            i <= xs@.len(),
            tags_member(entries_view(obj@)) == rows_in(JsonV::Arr(vs)),
            vs == items_view(xs@),
            out@.len() == i,
            forall|k: int| 0 <= k < i ==> row_in(#[trigger] vs[k]) is Some,
            forall|k: int| 0 <= k < i ==> texts((#[trigger] out@[k])@) == row_in(vs[k])->0,
        decreases xs@.len() - i,
    {
        proof {
            assert(vs[i as int] == xs@[i as int]@);
        }
        match get_row(&xs[i]) {
            Some(t) => {
                out.push(t);
            },
            None => {
                return None;
            },
        }
        i = i + 1;
    }
    proof {
        assert(tags_view(out@) =~= rows_in(JsonV::Arr(vs))->0);
    }
    Some(out)
}

fn read_sig(s: &str) -> (r: Option<[u8; 64]>)
    ensures
        match sig_in(s@) {
            Some(b) => r is Some && r->0@ == b,
            None => r is None,
        },
{
    let v: Vec<char> = chars_of(s);
    if v.len() != 128 {
        return None;
    }
    proof {
        assert(v@.subrange(0, 128) =~= s@);
    }
    match hex_bytes(&v, 0, 128) {
        Some(b) => {
            let sig: [u8; 64] = sig_of(b.as_slice());
            proof {
                assert(sig@ =~= b@);
            }
            Some(sig)
        },
        None => None,
    }
}

fn write_hex(out: &mut String, b: &[u8])
    ensures
        final(out)@ == old(out)@ + quoted(hex(b@)),
{
    let h: String = hex_encode(b);
    write_string(out, h.as_str());
}

/// `ev` is the event that signing with the auxiliary randomness `aux` gives.
pub open spec fn event_by(
    secret: Seq<u8>,
    public: Seq<u8>,
    created_at: u64,
    kind: u32,
    tags: Seq<Seq<Seq<char>>>,
    content: Seq<char>,
    aux: Seq<u8>,
    r: Option<Event>,
) -> bool {
    let id = sha256_of(encode_utf8(event_text(public, created_at, kind, tags, content)));
    match crate::crypto::signature_of(secret, id, aux) {
        Some(sig) => r is Some && r->0@ == (EventV { id, pubkey: public, created_at, kind, tags, content, sig }),
        None => r is None,
    }
}

/// `r` is an event that signing with some auxiliary randomness gives.
pub open spec fn event_made(
    secret: Seq<u8>,
    public: Seq<u8>,
    created_at: u64,
    kind: u32,
    tags: Seq<Seq<Seq<char>>>,
    content: Seq<char>,
    r: Option<Event>,
) -> bool {
    exists|aux: Seq<u8>| #[trigger] event_by(secret, public, created_at, kind, tags, content, aux, r)
}

fn dup_tags(tags: &Vec<Vec<String>>) -> (r: Vec<Vec<String>>)
    ensures
        tags_view(r@) == tags_view(tags@),
{
    let mut r: Vec<Vec<String>> = Vec::new();
    let mut i: usize = 0;
    while i < tags.len()
        invariant
            i <= tags@.len(),
            r@.len() == i,
            forall|k: int| 0 <= k < i ==> texts((#[trigger] r@[k])@) == texts(tags@[k]@),
        decreases tags@.len() - i,
    {
        let mut row: Vec<String> = Vec::new();
        let mut j: usize = 0;
        while j < tags[i].len()
            invariant
                i < tags@.len(),
                j <= tags@[i as int]@.len(),
                row@.len() == j,
                forall|k: int| 0 <= k < j ==> (#[trigger] row@[k])@ == tags@[i as int]@[k]@,
            decreases tags@[i as int]@.len() - j,
        {
            row.push(tags[i][j].clone());
            j = j + 1;
        }
        proof {
            assert(texts(row@) =~= texts(tags@[i as int]@));
        }
        r.push(row);
        i = i + 1;
    }
    proof {
        assert(tags_view(r@) =~= tags_view(tags@));
    }
    r
}

impl Event {
    /// Build, compute the NIP-01 id, and Schnorr-sign an event. Nothing where the curve library
    /// refuses to sign.
    pub fn create(id: &Identity, created_at: u64, kind: u32, tags: Vec<Vec<String>>, content: String) -> (r: Option<Event>)
        ensures
            event_made(id.secret(), id.public(), created_at, kind, tags_view(tags@), content@, r),
            r matches Some(ev) ==> ev@.id == event_id(ev@) && ev@.pubkey == id.public() && ev@.created_at == created_at
                && ev@.kind == kind && ev@.tags == tags_view(tags@) && ev@.content == content@,
            r matches Some(ev) ==> id.wf() ==> event_valid(ev@),
    {
        let ghost tv = tags_view(tags@);
        let ghost cv = content@;
        let zero_sig = [0u8; 64];
        let zero_id = [0u8; 32];
        let mut ev = Event { id: zero_id, pubkey: id.public_key(), created_at, kind, tags, content, sig: zero_sig };
        ev.id = ev.compute_id();
        let sig: Option<[u8; 64]> = id.sign(&ev.id);
        let ghost aux = choose|aux: Seq<u8>| #[trigger] signature_by(id.secret(), ev.id@, aux, sig);
        let r: Option<Event> = match sig {
            Some(sig) => {
                ev.sig = sig;
                Some(ev)
            },
            None => None,
        };
        proof {
            assert(event_by(id.secret(), id.public(), created_at, kind, tv, cv, aux, r));
        }
        r
    }

    /// A copy with the same contents.
    pub fn dup(&self) -> (r: Event)
        ensures
            r@ == self@,
    {
        Event {
            id: self.id,
            pubkey: self.pubkey,
            created_at: self.created_at,
            kind: self.kind,
            tags: dup_tags(&self.tags),
            content: self.content.clone(),
            sig: self.sig,
        }
    }

    /// NIP-01 id = sha256 of the compact JSON array
    /// `[0,<pubkey-hex>,<created_at>,<kind>,<tags>,<content>]`.
    pub fn compute_id(&self) -> (r: [u8; 32])
        ensures
            r@ == event_id(self@),
    {
        let mut s = String::new();
        s.push('[');
        s.push('0');
        s.push(',');
        write_hex(&mut s, self.pubkey.as_slice());
        s.push(',');
        push_dec(&mut s, self.created_at);
        s.push(',');
        push_dec(&mut s, self.kind as u64);
        s.push(',');
        write_tags(&mut s, &self.tags);
        s.push(',');
        write_string(&mut s, self.content.as_str());
        s.push(']');
        proof {
            assert(s@ =~= event_text(self@.pubkey, self@.created_at, self@.kind, self@.tags, self@.content));
        }
        let parts: [&[u8]; 1] = [s.as_str().as_bytes()];
        proof {
            let ps = parts_of(parts@);
            reveal_with_fuel(joined, 2);
            assert(ps.drop_last() =~= Seq::<Seq<u8>>::empty());
            assert(joined(ps) =~= encode_utf8(s@));
        }
        sha256(parts.as_slice())
    }

    /// id matches the contents and the signature verifies under pubkey.
    pub fn verify(&self) -> (r: bool)
        ensures
            r == event_valid(self@),
    {
        let id: [u8; 32] = self.compute_id();
        crate::crypto::key_eq(&id, &self.id) && crate::crypto::verify(&self.pubkey, &self.id, &self.sig)
    }

    /// First value of the first tag whose name is `name` (e.g. "p", "t").
    pub fn tag(&self, name: &str) -> (r: Option<&str>)
        ensures
            match tag_value(self@.tags, name@) {
                Some(v) => r is Some && r->0@ == v,
                None => r is None,
            },
    {
        let ghost all = tags_view(self.tags@);
        let mut i: usize = 0;
        proof {
            assert(all.skip(0) =~= all);
        }
        while i < self.tags.len()
            invariant
                i <= self.tags@.len(),
                all == tags_view(self.tags@),
                tag_value(all.skip(i as int), name@) == tag_value(all, name@),
            decreases self.tags@.len() - i,
        {
            let t: &Vec<String> = &self.tags[i];
            proof {
                assert(all.skip(i as int)[0] == texts(t@));
                assert(all.skip(i as int).drop_first() =~= all.skip(i + 1));
            }
            if t.len() > 0 && str_eq(t[0].as_str(), name) {
                if t.len() > 1 {
                    return Some(t[1].as_str());
                } else {
                    return None;
                }
            }
            i = i + 1;
        }
        None
    }

    /// Whether any `name` tag has value `value`. Events can carry several tags of the same
    /// name, so a filter must check all of them, not just the first.
    pub fn has_tag(&self, name: &str, value: &str) -> (r: bool)
        ensures
            r == tagged(self@.tags, name@, value@),
    {
        let mut i: usize = 0;
        while i < self.tags.len()
            invariant
                i <= self.tags@.len(),
                forall|k: int| 0 <= k < i ==> !is_tag(#[trigger] self@.tags[k], name@, value@),
            decreases self.tags@.len() - i,
        {
            let t: &Vec<String> = &self.tags[i];
            proof {
                assert(self@.tags[i as int] == texts(t@));
            }
            if t.len() > 1 && str_eq(t[0].as_str(), name) && str_eq(t[1].as_str(), value) {
                proof {
                    assert(is_tag(self@.tags[i as int], name@, value@));
                }
                return true;
            }
            i = i + 1;
        }
        false
    }

    /// Serialize to the compact JSON object relays expect.
    pub fn to_json(&self) -> (r: String)
        ensures
            r@ == event_json(self@),
    {
        let mut s = String::new();
        let ghost ms = event_members(self@);
        first_member(&mut s, "id", quoted_hex(self.id.as_slice()).as_str());
        let ghost mut p = member_json(ms[0].0, ms[0].1);
        proof {
            assert(s@ =~= seq!['{'] + p);
        }
        next_member(&mut s, "pubkey", quoted_hex(self.pubkey.as_slice()).as_str());
        proof {
            member_joins(p, member_json(ms[1].0, ms[1].1));
            p = (p + seq![',']) + member_json(ms[1].0, ms[1].1);
        }
        next_member(&mut s, "created_at", number_text(self.created_at).as_str());
        proof {
            member_joins(p, member_json(ms[2].0, ms[2].1));
            p = (p + seq![',']) + member_json(ms[2].0, ms[2].1);
        }
        next_member(&mut s, "kind", number_text(self.kind as u64).as_str());
        proof {
            member_joins(p, member_json(ms[3].0, ms[3].1));
            p = (p + seq![',']) + member_json(ms[3].0, ms[3].1);
        }
        next_member(&mut s, "tags", tags_text(&self.tags).as_str());
        proof {
            member_joins(p, member_json(ms[4].0, ms[4].1));
            p = (p + seq![',']) + member_json(ms[4].0, ms[4].1);
        }
        next_member(&mut s, "content", quoted_text(self.content.as_str()).as_str());
        proof {
            member_joins(p, member_json(ms[5].0, ms[5].1));
            p = (p + seq![',']) + member_json(ms[5].0, ms[5].1);
        }
        next_member(&mut s, "sig", quoted_hex(self.sig.as_slice()).as_str());
        proof {
            member_joins(p, member_json(ms[6].0, ms[6].1));
            p = (p + seq![',']) + member_json(ms[6].0, ms[6].1);
            seven_members(ms);
        }
        s.push('}');
        proof {
            assert(s@ =~= seq!['{'] + p + seq!['}']);
        }
        s
    }

    /// Parse an event object from JSON. Returns None on any structural fault.
    pub fn from_json(v: &Json) -> (r: Option<Event>)
        ensures
            match event_in(v@) {
                Some(e) => r is Some && r->0@ == e,
                None => r is None,
            },
    {
        let obj: &Vec<(String, Json)> = v.as_obj()?;
        let id: PubKey = get_key(obj, "id")?;
        let pubkey: PubKey = get_key(obj, "pubkey")?;
        let created_at: u64 = get_num(obj, "created_at")?;
        let kind: u64 = get_num(obj, "kind")?;
        let tags: Vec<Vec<String>> = get_tags(obj)?;
        let body: &str = get_str(obj, "content")?;
        let sig: [u8; 64] = read_sig(get_str(obj, "sig")?)?;
        let mut content = String::new();
        push_text(&mut content, body);
        proof {
            assert(content@ =~= body@);
        }
        Some(Event { id, pubkey, created_at, kind: (kind % 0x1_0000_0000) as u32, tags, content, sig })
    }
}

} // verus!
