//! The lobby: discovery of live regions, and signals addressed to us.
//!
//! Relays are untrusted and redundant. The same event arrives once per relay we share, so an
//! event is handled once; one whose signature does not stand is dropped.

use crate::beacon::{beacon_content, beacon_in, beacon_tags, Beacon, BeaconV};
use crate::crypto::{key_eq, key_hex_reads_back, shared_of, Identity, PubKey, AEAD_MAX};
use crate::json::texts;
use crate::nostr::{
    event_made, event_valid, region_topic, tagged, topic_of, Event, EventV, GLOBAL_TOPIC, KIND_BEACON, KIND_SIGNAL,
};
use crate::signal::{signal_in, signal_made, signal_tags, signal_text, Signal, SignalV};
use crate::signaling::{beacon_filter, events_view, passes, signal_filter, tagged_any, Filter, FilterV, RelayClient};
use crate::text::{hex, str_eq, text_of};
use vstd::prelude::*;
use vstd::utf8::encode_utf8;

verus! {

/// How many event ids are remembered.
pub const RECENT: usize = 4096;

/// What a lobby remembers.
#[verifier::ext_equal]
pub struct LobbyV {
    /// the beacon kept for each region and host
    pub seen: Map<(Seq<char>, Seq<u8>), BeaconV>,
    /// the ids of the events handled, the oldest first
    pub recent: Seq<Seq<u8>>,
}

/// What a beacon is kept under: its region and its host.
pub open spec fn beacon_key(b: BeaconV) -> (Seq<char>, Seq<u8>) {
    (b.region, b.host)
}

/// The ids remembered once `id` was handled: the newest ones, in a bounded ring.
pub open spec fn remembered(recent: Seq<Seq<u8>>, id: Seq<u8>) -> Seq<Seq<u8>> {
    let all = recent.push(id);
    if all.len() > RECENT {
        all.drop_first()
    } else {
        all
    }
}

/// Does a beacon take the place of the one kept so far? The latest by tick, which grows with the
/// world, is the freshest.
pub open spec fn replaces(prev: BeaconV, b: BeaconV) -> bool {
    b.tick >= prev.tick
}

/// The beacons kept once the event was handled.
pub open spec fn seen_after(seen: Map<(Seq<char>, Seq<u8>), BeaconV>, e: EventV) -> Map<(Seq<char>, Seq<u8>), BeaconV> {
    match beacon_in(e) {
        Some(b) => if !seen.contains_key(beacon_key(b)) || replaces(seen[beacon_key(b)], b) {
            seen.insert(beacon_key(b), b)
        } else {
            seen
        },
        None => seen,
    }
}

/// The lobby after an event.
pub open spec fn heard(l: LobbyV, e: EventV) -> LobbyV {
    if l.recent.contains(e.id) {
        l
    } else {
        LobbyV {
            seen: if event_valid(e) {
                seen_after(l.seen, e)
            } else {
                l.seen
            },
            recent: remembered(l.recent, e.id),
        }
    }
}

/// The signal that an event brings to the holder of `secret`, with its author.
pub open spec fn signal_heard(l: LobbyV, e: EventV, secret: Seq<u8>) -> Option<(Seq<u8>, SignalV)> {
    if l.recent.contains(e.id) || !event_valid(e) {
        None
    } else {
        match signal_in(e, secret) {
            Some(s) => Some((e.pubkey, s)),
            None => None,
        }
    }
}

/// The lobby after some events, in their order.
pub open spec fn heard_all(l: LobbyV, es: Seq<EventV>) -> LobbyV
    decreases es.len(),
{
    if es.len() == 0 {
        l
    } else {
        heard(heard_all(l, es.drop_last()), es.last())
    }
}

/// The signals that some events bring, in their order.
pub open spec fn signals_heard(l: LobbyV, es: Seq<EventV>, secret: Seq<u8>) -> Seq<(Seq<u8>, SignalV)>
    decreases es.len(),
{
    if es.len() == 0 {
        Seq::empty()
    } else {
        let head = signals_heard(l, es.drop_last(), secret);
        match signal_heard(heard_all(l, es.drop_last()), es.last(), secret) {
            Some(s) => head.push(s),
            None => head,
        }
    }
}

pub open spec fn signals_view(v: Seq<(PubKey, Signal)>) -> Seq<(Seq<u8>, SignalV)> {
    Seq::new(v.len(), |i: int| (v[i].0@, v[i].1@))
}

/// A lobby went from `a` to `b` and gave `signals` out, on some events that the relay brought.
pub open spec fn polled(a: LobbyV, b: LobbyV, secret: Seq<u8>, signals: Seq<(Seq<u8>, SignalV)>, es: Seq<EventV>) -> bool {
    b == heard_all(a, es) && signals == signals_heard(a, es, secret)
}

// ----------------------------------------------------------------------
// The order of the listing
// ----------------------------------------------------------------------

/// Does `a` stand before `b` in the dictionary?
pub open spec fn lex_before(a: Seq<u8>, b: Seq<u8>) -> bool
    decreases b.len(),
{
    if b.len() == 0 {
        false
    } else if a.len() == 0 {
        true
    } else if a[0] != b[0] {
        a[0] < b[0]
    } else {
        lex_before(a.drop_first(), b.drop_first())
    }
}

/// Regions by their bytes, then hosts by theirs.
pub open spec fn key_before(a: (Seq<char>, Seq<u8>), b: (Seq<char>, Seq<u8>)) -> bool {
    lex_before(encode_utf8(a.0), encode_utf8(b.0)) || (a.0 == b.0 && lex_before(a.1, b.1))
}

/// The highest tick first, and regions of one tick by their key.
pub open spec fn listed_before(a: BeaconV, b: BeaconV) -> bool {
    a.tick > b.tick || (a.tick == b.tick && key_before(beacon_key(a), beacon_key(b)))
}

/// `s` lists each beacon kept, once, in the order of the listing.
pub open spec fn listing(seen: Map<(Seq<char>, Seq<u8>), BeaconV>, s: Seq<BeaconV>) -> bool {
    &&& forall|i: int, j: int| 0 <= i < j < s.len() ==> listed_before(#[trigger] s[i], #[trigger] s[j])
    &&& forall|i: int|
        0 <= i < s.len() ==> seen.contains_key(beacon_key(#[trigger] s[i])) && seen[beacon_key(s[i])] == s[i]
    &&& forall|k: (Seq<char>, Seq<u8>)| #[trigger] seen.contains_key(k) ==> s.contains(seen[k])
}

proof fn lex_total(a: Seq<u8>, b: Seq<u8>)
    ensures
        a == b || lex_before(a, b) || lex_before(b, a),
        !lex_before(a, a),
    decreases a.len() + b.len(),
{
    if a.len() > 0 && b.len() > 0 {
        lex_total(a.drop_first(), b.drop_first());
        if a[0] == b[0] && a.drop_first() == b.drop_first() {
            assert(a =~= seq![a[0]] + a.drop_first());
            assert(b =~= seq![b[0]] + b.drop_first());
        }
    } else if a.len() > 0 {
        lex_total(a.drop_first(), a.drop_first().take(0));
    } else if b.len() == 0 {
        assert(a =~= b);
    }
}

proof fn lex_transitive(a: Seq<u8>, b: Seq<u8>, c: Seq<u8>)
    requires
        lex_before(a, b),
        lex_before(b, c),
    ensures
        lex_before(a, c),
    decreases c.len(),
{
    if a.len() > 0 && b.len() > 0 && a[0] == b[0] && b[0] == c[0] {
        lex_transitive(a.drop_first(), b.drop_first(), c.drop_first());
    }
}

proof fn listed_total(a: BeaconV, b: BeaconV)
    requires
        beacon_key(a) != beacon_key(b),
    ensures
        listed_before(a, b) || listed_before(b, a),
{
    lex_total(encode_utf8(a.region), encode_utf8(b.region));
    lex_total(a.host, b.host);
    vstd::utf8::encode_utf8_decode_utf8(a.region);
    vstd::utf8::encode_utf8_decode_utf8(b.region);
}

proof fn listed_transitive(a: BeaconV, b: BeaconV, c: BeaconV)
    requires
        listed_before(a, b),
        listed_before(b, c),
    ensures
        listed_before(a, c),
{
    if a.tick == b.tick && b.tick == c.tick {
        let (x, y, z) = (encode_utf8(a.region), encode_utf8(b.region), encode_utf8(c.region));
        if lex_before(x, y) && lex_before(y, z) {
            lex_transitive(x, y, z);
        } else if a.region == b.region && b.region == c.region && lex_before(a.host, b.host) && lex_before(b.host, c.host) {
            lex_transitive(a.host, b.host, c.host);
        }
    }
}

fn lex_less(a: &[u8], b: &[u8]) -> (r: bool)
    ensures
        r == lex_before(a@, b@),
{
    let mut i: usize = 0;
    proof {
        assert(a@.skip(0) =~= a@);
        assert(b@.skip(0) =~= b@);
    }
    while i < a.len() && i < b.len()
        invariant
            i <= a@.len(),
            i <= b@.len(),
            lex_before(a@.skip(i as int), b@.skip(i as int)) == lex_before(a@, b@),
        decreases a@.len() - i,
    {
        proof {
            assert(a@.skip(i as int).drop_first() =~= a@.skip(i + 1));
            assert(b@.skip(i as int).drop_first() =~= b@.skip(i + 1));
        }
        if a[i] != b[i] {
            return a[i] < b[i];
        }
        i = i + 1;
    }
    i < b.len()
}

fn goes_before(a: &Beacon, b: &Beacon) -> (r: bool)
    ensures
        r == listed_before(a@, b@),
{
    if a.tick != b.tick {
        return a.tick > b.tick;
    }
    if lex_less(a.region.as_str().as_bytes(), b.region.as_str().as_bytes()) {
        return true;
    }
    str_eq(a.region.as_str(), b.region.as_str()) && lex_less(a.host.as_slice(), b.host.as_slice())
}

// ----------------------------------------------------------------------
// The lobby
// ----------------------------------------------------------------------

pub open spec fn beacons_view(v: Seq<Beacon>) -> Seq<BeaconV> {
    Seq::new(v.len(), |i: int| v[i]@)
}

spec fn in_order(s: Seq<BeaconV>) -> bool {
    forall|i: int, j: int| 0 <= i < j < s.len() ==> listed_before(#[trigger] s[i], #[trigger] s[j])
}

/// Each of `s` is among the first `n` of `seen`.
spec fn drawn_from(s: Seq<BeaconV>, seen: Seq<Beacon>, n: int) -> bool {
    forall|b: BeaconV| #[trigger] s.contains(b) ==> exists|j: int| 0 <= j < n && b == (#[trigger] seen[j])@
}

/// Each of the first `n` of `seen` is in `s`.
spec fn lists_all(s: Seq<BeaconV>, seen: Seq<Beacon>, n: int) -> bool {
    forall|j: int| 0 <= j < n ==> s.contains((#[trigger] seen[j])@)
}

proof fn drawn_from_grows(s: Seq<BeaconV>, p: int, seen: Seq<Beacon>, n: int)
    requires
        drawn_from(s, seen, n),
        0 <= p <= s.len(),
        0 <= n < seen.len(),
    ensures
        drawn_from(s.insert(p, seen[n]@), seen, n + 1),
{
    let t = s.insert(p, seen[n]@);
    assert forall|b: BeaconV| #[trigger] t.contains(b) implies exists|j: int|
        0 <= j < n + 1 && b == (#[trigger] seen[j])@ by {
        let a = choose|a: int| 0 <= a < t.len() && t[a] == b;
        if a == p {
            assert(b == seen[n]@);
        } else {
            let a0 = if a < p { a } else { a - 1 };
            assert(s[a0] == b);
            assert(s.contains(b));
            let j = choose|j: int| 0 <= j < n && b == (#[trigger] seen[j])@;
            assert(b == seen[j]@);
        }
    }
}

proof fn lists_all_grows(s: Seq<BeaconV>, p: int, seen: Seq<Beacon>, n: int)
    requires
        lists_all(s, seen, n),
        0 <= p <= s.len(),
        0 <= n < seen.len(),
    ensures
        lists_all(s.insert(p, seen[n]@), seen, n + 1),
{
    let t = s.insert(p, seen[n]@);
    assert forall|j: int| 0 <= j < n + 1 implies t.contains((#[trigger] seen[j])@) by {
        if j == n {
            assert(t[p] == seen[n]@);
        } else {
            let a = choose|a: int| 0 <= a < s.len() && s[a] == seen[j]@;
            let a1 = if a < p { a } else { a + 1 };
            assert(t[a1] == s[a]);
        }
    }
}

proof fn in_order_grows(s: Seq<BeaconV>, p: int, b: BeaconV)
    requires
        in_order(s),
        0 <= p <= s.len(),
        forall|a: int| 0 <= a < p ==> listed_before(#[trigger] s[a], b),
        p < s.len() ==> listed_before(b, s[p]),
    ensures
        in_order(s.insert(p, b)),
{
    let t = s.insert(p, b);
    assert forall|a: int| p <= a < s.len() implies listed_before(b, #[trigger] s[a]) by {
        if a > p {
            listed_transitive(b, s[p], s[a]);
        }
    }
    assert forall|x: int, y: int| 0 <= x < y < t.len() implies listed_before(#[trigger] t[x], #[trigger] t[y]) by {
        let x0 = if x < p { x } else { x - 1 };
        let y0 = if y < p { y } else { y - 1 };
        if x != p {
            assert(t[x] == s[x0]);
        }
        if y != p {
            assert(t[y] == s[y0]);
        }
    }
}

/// Put a beacon into its place of the listing.
fn list_one(out: &mut Vec<Beacon>, b: Beacon) -> (p: usize)
    requires
        in_order(beacons_view(old(out)@)),
        forall|a: int|
            0 <= a < old(out)@.len() ==> beacon_key(#[trigger] beacons_view(old(out)@)[a]) != beacon_key(b@),
    ensures
        p <= old(out)@.len(),
        beacons_view(final(out)@) == beacons_view(old(out)@).insert(p as int, b@),
        in_order(beacons_view(final(out)@)),
{
    let ghost s = beacons_view(out@);
    let mut p: usize = 0;
    while p < out.len() && goes_before(&out[p], &b)
        invariant
            p <= out@.len(),
            s == beacons_view(out@),
            forall|a: int| 0 <= a < p ==> listed_before(#[trigger] s[a], b@),
        decreases out@.len() - p,
    {
        p = p + 1;
    }
    proof {
        if p < s.len() {
            assert(s[p as int] == out@[p as int]@);
            listed_total(s[p as int], b@);
        }
        in_order_grows(s, p as int, b@);
    }
    out.insert(p, b);
    proof {
        assert(beacons_view(out@) =~= s.insert(p as int, b@));
    }
    p
}

pub struct Lobby<R: RelayClient> {
    relay: R,
    id: Identity,
    /// the beacon kept for each region and host
    seen: Vec<Beacon>,
    /// ids of the events already handled
    recent: Vec<[u8; 32]>,
}

spec fn holds(seen: Seq<Beacon>, k: (Seq<char>, Seq<u8>)) -> bool {
    exists|i: int| 0 <= i < seen.len() && beacon_key((#[trigger] seen[i])@) == k
}

spec fn place_of(seen: Seq<Beacon>, k: (Seq<char>, Seq<u8>)) -> int {
    choose|i: int| 0 <= i < seen.len() && beacon_key((#[trigger] seen[i])@) == k
}

spec fn seen_map(seen: Seq<Beacon>) -> Map<(Seq<char>, Seq<u8>), BeaconV> {
    Map::new(|k: (Seq<char>, Seq<u8>)| holds(seen, k), |k: (Seq<char>, Seq<u8>)| seen[place_of(seen, k)]@)
}

spec fn distinct_keys(seen: Seq<Beacon>) -> bool {
    forall|i: int, j: int|
        0 <= i < j < seen.len() ==> beacon_key((#[trigger] seen[i])@) != beacon_key((#[trigger] seen[j])@)
}

proof fn seen_at(seen: Seq<Beacon>, i: int)
    requires
        distinct_keys(seen),
        0 <= i < seen.len(),
    ensures
        seen_map(seen).contains_key(beacon_key(seen[i]@)),
        seen_map(seen)[beacon_key(seen[i]@)] == seen[i]@,
{
    let k = beacon_key(seen[i]@);
    assert(holds(seen, k));
    let j = place_of(seen, k);
    assert(0 <= j < seen.len() && beacon_key(seen[j]@) == k);
}

proof fn seen_grows(a: Seq<Beacon>, b: Beacon)
    requires
        distinct_keys(a),
        !holds(a, beacon_key(b@)),
    ensures
        distinct_keys(a.push(b)),
        seen_map(a.push(b)) == seen_map(a).insert(beacon_key(b@), b@),
{
    let c = a.push(b);
    assert forall|i: int, j: int| 0 <= i < j < c.len() implies beacon_key((#[trigger] c[i])@) != beacon_key(
        (#[trigger] c[j])@,
    ) by {
        assert(c[i] == a[i]);
        if j < a.len() {
            assert(c[j] == a[j]);
        }
    }
    let m = seen_map(a).insert(beacon_key(b@), b@);
    assert forall|k: (Seq<char>, Seq<u8>)| #[trigger] seen_map(c).contains_key(k) == m.contains_key(k) && (
    m.contains_key(k) ==> seen_map(c)[k] == m[k]) by {
        if holds(a, k) {
            let i = place_of(a, k);
            assert(c[i] == a[i]);
            seen_at(c, i);
            seen_at(a, i);
        }
        if k == beacon_key(b@) {
            assert(c[a.len() as int] == b);
            seen_at(c, a.len() as int);
        }
        if holds(c, k) {
            let i = place_of(c, k);
            if i < a.len() {
                assert(a[i] == c[i]);
                assert(holds(a, k));
            }
        }
    }
    assert(seen_map(c) =~= m);
}

proof fn seen_changes(a: Seq<Beacon>, p: int, b: Beacon)
    requires
        distinct_keys(a),
        0 <= p < a.len(),
        beacon_key(a[p]@) == beacon_key(b@),
    ensures
        distinct_keys(a.update(p, b)),
        seen_map(a.update(p, b)) == seen_map(a).insert(beacon_key(b@), b@),
{
    let c = a.update(p, b);
    assert forall|i: int| 0 <= i < a.len() implies beacon_key((#[trigger] c[i])@) == beacon_key(a[i]@) by {}
    assert(distinct_keys(c));
    let m = seen_map(a).insert(beacon_key(b@), b@);
    assert forall|k: (Seq<char>, Seq<u8>)| #[trigger] seen_map(c).contains_key(k) == m.contains_key(k) && (
    m.contains_key(k) ==> seen_map(c)[k] == m[k]) by {
        if holds(a, k) {
            let i = place_of(a, k);
            assert(beacon_key(c[i]@) == k);
            seen_at(c, i);
            seen_at(a, i);
        }
        seen_at(c, p);
        if holds(c, k) {
            let i = place_of(c, k);
            assert(beacon_key(a[i]@) == k);
            assert(holds(a, k));
        }
    }
    assert(seen_map(c) =~= m);
}

impl<R: RelayClient> Lobby<R> {
    /// What the lobby remembers.
    pub closed spec fn state(&self) -> LobbyV {
        LobbyV { seen: seen_map(self.seen@), recent: self.recent@.map_values(|id: [u8; 32]| id@) }
    }

    /// Each region and host is kept once, and the ids are bounded.
    pub closed spec fn wf(&self) -> bool {
        distinct_keys(self.seen@) && self.recent@.len() <= RECENT
    }

    /// Our key's secret half.
    pub closed spec fn secret(&self) -> Seq<u8> {
        self.id.secret()
    }

    /// Our public key.
    pub closed spec fn public(&self) -> Seq<u8> {
        self.id.public()
    }

    /// Are the two halves one key?
    pub closed spec fn sound(&self) -> bool {
        self.id.wf()
    }

    /// What was handed to the relay.
    pub closed spec fn published(&self) -> Seq<EventV> {
        self.relay.published()
    }

    /// What the relay was asked for.
    pub closed spec fn subscribed(&self) -> Seq<FilterV> {
        self.relay.subscribed()
    }

    /// What the relay brought, one batch for each poll.
    pub closed spec fn delivered(&self) -> Seq<Seq<EventV>> {
        self.relay.delivered()
    }

    /// The identity, and what was handed to the relay, are as they were.
    pub open spec fn same_words(&self, other: &Self) -> bool {
        &&& self.secret() == other.secret()
        &&& self.public() == other.public()
        &&& self.sound() == other.sound()
        &&& self.published() == other.published()
        &&& self.subscribed() == other.subscribed()
    }

    /// The same, and the relay was not polled.
    pub open spec fn same_ends(&self, other: &Self) -> bool {
        self.same_words(other) && self.delivered() == other.delivered()
    }

    /// Open a lobby and subscribe to region beacons plus any signaling addressed to us.
    /// `regions` narrows beacon discovery; empty means "all regions" (via the shared topic, not
    /// a bare kind filter, which would pull in every other application's events of that kind).
    /// `since` (unix seconds) drops anything older, so a relay that wrongly stores our
    /// ephemeral beacons can't replay its whole backlog at us.
    pub fn new(relay: R, id: Identity, regions: &[String], since: Option<u64>) -> (l: Lobby<R>)
        ensures
            l.wf(),
            l.secret() == id.secret(),
            l.public() == id.public(),
            l.sound() == id.wf(),
            l.published() == relay.published(),
            l.delivered() == relay.delivered(),
            l.subscribed() == relay.subscribed().push(beacon_filter(topics_of(texts(regions@)), since)).push(
                signal_filter(id.public(), since),
            ),
            l.state() == (LobbyV { seen: Map::empty(), recent: Seq::empty() }),
    {
        let mut relay = relay;
        let mut topics: Vec<String> = Vec::new();
        if regions.len() == 0 {
            topics.push(text_of(GLOBAL_TOPIC));
        } else {
            let mut i: usize = 0;
            while i < regions.len()
                invariant
                    i <= regions@.len(),
                    topics@.len() == i,
                    forall|k: int| 0 <= k < i ==> (#[trigger] topics@[k])@ == topic_of(regions@[k]@),
                decreases regions@.len() - i,
            {
                topics.push(region_topic(regions[i].as_str()));
                i = i + 1;
            }
        }
        proof {
            assert(texts(topics@) =~= topics_of(texts(regions@)));
        }
        relay.subscribe(Filter::beacons(topics, since));
        let pk: PubKey = id.public_key();
        relay.subscribe(Filter::signals(&pk, since));
        let l = Lobby { relay, id, seen: Vec::new(), recent: Vec::new() };
        proof {
            assert(l.state().seen =~= Map::empty());
            assert(l.state().recent =~= Seq::empty());
        }
        l
    }

    pub fn my_key(&self) -> (k: PubKey)
        ensures
            k@ == self.public(),
    {
        self.id.public_key()
    }

    /// The relay, for whoever moves its events.
    pub fn relay_mut(&mut self) -> (r: &mut R)
        ensures
            r.published() == old(self).published(),
            r.subscribed() == old(self).subscribed(),
            r.delivered() == old(self).delivered(),
            final(self).published() == final(r).published(),
            final(self).subscribed() == final(r).subscribed(),
            final(self).delivered() == final(r).delivered(),
            final(self).state() == old(self).state(),
            final(self).wf() == old(self).wf(),
            final(self).secret() == old(self).secret(),
            final(self).public() == old(self).public(),
            final(self).sound() == old(self).sound(),
    {
        &mut self.relay
    }

    /// Add a beacon subscription for one specific region topic: used to discover an
    /// invite-only host whose beacon omits the global topic (the joiner derives this region
    /// from the room code). Re-subscribing is harmless: an event is handled once.
    pub fn watch_region(&mut self, region: &str)
        ensures
            final(self).subscribed() == old(self).subscribed().push(beacon_filter(seq![topic_of(region@)], None)),
            final(self).published() == old(self).published(),
            final(self).delivered() == old(self).delivered(),
            final(self).state() == old(self).state(),
            final(self).wf() == old(self).wf(),
            final(self).secret() == old(self).secret(),
            final(self).public() == old(self).public(),
            final(self).sound() == old(self).sound(),
    {
        let mut topics: Vec<String> = Vec::new();
        topics.push(region_topic(region));
        proof {
            assert(texts(topics@) =~= seq![topic_of(region@)]);
        }
        self.relay.subscribe(Filter::beacons(topics, None));
    }

    /// Host: (re)publish our region beacon. Nothing goes out where the curve library refuses to
    /// sign.
    pub fn advertise(&mut self, beacon: &Beacon, now: u64)
        ensures
            exists|r: Option<Event>| #[trigger]
                event_made(
                    old(self).secret(),
                    old(self).public(),
                    now,
                    KIND_BEACON,
                    beacon_tags(beacon@),
                    beacon_content(beacon@),
                    r,
                ) && final(self).published() == sent_with(old(self).published(), r) && (r matches Some(ev) ==> old(
                    self,
                ).sound() ==> event_valid(ev@)),
            final(self).subscribed() == old(self).subscribed(),
            final(self).delivered() == old(self).delivered(),
            final(self).state() == old(self).state(),
            final(self).wf() == old(self).wf(),
            final(self).secret() == old(self).secret(),
            final(self).public() == old(self).public(),
            final(self).sound() == old(self).sound(),
    {
        let ev: Option<Event> = beacon.to_event(&self.id, now);
        proof {
            assert(event_made(
                old(self).secret(),
                old(self).public(),
                now,
                KIND_BEACON,
                beacon_tags(beacon@),
                beacon_content(beacon@),
                ev,
            ));
        }
        match &ev {
            Some(e) => self.relay.publish(e),
            None => {},
        }
    }

    fn already(&self, id: &[u8; 32]) -> (r: bool)
        ensures
            r == self.state().recent.contains(id@),
    {
        let mut i: usize = 0;
        while i < self.recent.len()
            invariant
                i <= self.recent@.len(),
                forall|k: int| 0 <= k < i ==> (#[trigger] self.state().recent[k]) != id@,
            decreases self.recent@.len() - i,
        {
            proof {
                assert(self.state().recent[i as int] == self.recent@[i as int]@);
            }
            if key_eq(&self.recent[i], id) {
                return true;
            }
            i = i + 1;
        }
        false
    }

    fn remember(&mut self, id: &[u8; 32])
        requires
            old(self).wf(),
        ensures
            final(self).wf(),
            final(self).state() == (LobbyV { recent: remembered(old(self).state().recent, id@), ..old(self).state() }),
            final(self).same_ends(old(self)),
            final(self).seen@ == old(self).seen@,
    {
        self.recent.push(*id);
        if self.recent.len() > RECENT {
            let first: [u8; 32] = self.recent.remove(0);
        }
        proof {
            assert(self.state().recent =~= remembered(old(self).state().recent, id@));
        }
    }

    fn keep(&mut self, b: Beacon)
        requires
            old(self).wf(),
        ensures
            final(self).wf(),
            final(self).state() == (LobbyV {
                seen: {
                    let seen = old(self).state().seen;
                    if !seen.contains_key(beacon_key(b@)) || replaces(seen[beacon_key(b@)], b@) {
                        seen.insert(beacon_key(b@), b@)
                    } else {
                        seen
                    }
                },
                ..old(self).state()
            }),
            final(self).same_ends(old(self)),
    {
        let ghost k = beacon_key(b@);
        let ghost s0 = self.seen@;
        let mut i: usize = 0;
        while i < self.seen.len()
            invariant
                i <= self.seen@.len(),
                *self == *old(self),
                old(self).wf(),
                s0 == self.seen@,
                distinct_keys(s0),
                k == beacon_key(b@),
                forall|j: int| 0 <= j < i ==> beacon_key((#[trigger] s0[j])@) != k,
            decreases self.seen@.len() - i,
        {
            if str_eq(self.seen[i].region.as_str(), b.region.as_str()) && key_eq(&self.seen[i].host, &b.host) {
                proof {
                    seen_at(s0, i as int);
                }
                if b.tick >= self.seen[i].tick {
                    proof {
                        seen_changes(s0, i as int, b);
                    }
                    self.seen[i] = b;
                }
                return;
            }
            i = i + 1;
        }
        proof {
            seen_grows(s0, b);
        }
        self.seen.push(b);
    }

    /// Fold one event in, and give out the signal that it brings.
    pub fn hear(&mut self, ev: &Event) -> (r: Option<(PubKey, Signal)>)
        requires
            old(self).wf(),
        ensures
            final(self).wf(),
            final(self).state() == heard(old(self).state(), ev@),
            match signal_heard(old(self).state(), ev@, old(self).secret()) {
                Some(s) => r is Some && ((r->0).0@, (r->0).1@) == s,
                None => r is None,
            },
            final(self).same_ends(old(self)),
    {
        // skip duplicates the moment we recognize the id: several relays deliver the same
        // event, and re-applying it breaks the handshake
        if self.already(&ev.id) {
            return None;
        }
        self.remember(&ev.id);
        if !ev.verify() {
            return None;  // forged or corrupt: relays are untrusted

        }
        if ev.kind == KIND_BEACON {
            match Beacon::from_event(ev) {
                Some(b) => self.keep(b),
                None => {},
            }
        }
        Signal::from_event(ev, &self.id)
    }

    /// Fold events in, in their order, and give out the signals that they bring, decrypted and
    /// with their author verified.
    pub fn hear_all(&mut self, evs: &Vec<Event>) -> (r: Vec<(PubKey, Signal)>)
        requires
            old(self).wf(),
        ensures
            final(self).wf(),
            final(self).state() == heard_all(old(self).state(), events_view(evs@)),
            signals_view(r@) == signals_heard(old(self).state(), events_view(evs@), old(self).secret()),
            final(self).same_ends(old(self)),
    {
        let ghost l0 = self.state();
        let ghost es = events_view(evs@);
        let mut out: Vec<(PubKey, Signal)> = Vec::new();
        let mut i: usize = 0;
        proof {
            assert(signals_view(out@) =~= signals_heard(l0, es.take(0), self.secret()));
        }
        while i < evs.len()
            invariant
                i <= evs@.len(),
                self.wf(),
                es == events_view(evs@),
                self.same_ends(old(self)),
                self.state() == heard_all(l0, es.take(i as int)),
                signals_view(out@) == signals_heard(l0, es.take(i as int), self.secret()),
            decreases evs@.len() - i,
        {
            let ghost before = out@;
            proof {
                assert(es.take(i + 1).drop_last() =~= es.take(i as int));
                assert(es.take(i + 1).last() == evs@[i as int]@);
            }
            match self.hear(&evs[i]) {
                Some(s) => {
                    out.push(s);
                    proof {
                        assert(signals_view(out@) =~= signals_view(before).push((s.0@, s.1@)));
                    }
                },
                None => {},
            }
            i = i + 1;
        }
        proof {
            assert(es.take(i as int) =~= es);
        }
        out
    }

    /// Pump the relay; fold in fresh beacons and return any signals addressed to us.
    pub fn poll(&mut self) -> (r: Vec<(PubKey, Signal)>)
        requires
            old(self).wf(),
        ensures
            final(self).wf(),
            final(self).delivered().len() == old(self).delivered().len() + 1,
            final(self).delivered().drop_last() == old(self).delivered(),
            polled(
                old(self).state(),
                final(self).state(),
                old(self).secret(),
                signals_view(r@),
                final(self).delivered().last(),
            ),
            final(self).same_words(old(self)),
    {
        let evs: Vec<Event> = self.relay.poll();
        let r: Vec<(PubKey, Signal)> = self.hear_all(&evs);
        proof {
            assert(self.delivered().drop_last() =~= old(self).delivered());
        }
        r
    }

    /// Snapshot of live regions discovered so far, the highest tick first.
    pub fn regions(&self) -> (r: Vec<Beacon>)
        requires
            self.wf(),
        ensures
            listing(self.state().seen, beacons_view(r@)),
    {
        let ghost seen = self.seen@;
        let ghost m = self.state().seen;
        let mut out: Vec<Beacon> = Vec::new();
        let mut i: usize = 0;
        while i < self.seen.len()
            invariant
                i <= self.seen@.len(),
                seen == self.seen@,
                distinct_keys(seen),
                in_order(beacons_view(out@)),
                drawn_from(beacons_view(out@), seen, i as int),
                lists_all(beacons_view(out@), seen, i as int),
            decreases self.seen@.len() - i,
        {
            let ghost before = beacons_view(out@);
            proof {
                assert forall|a: int| 0 <= a < before.len() implies beacon_key(#[trigger] before[a]) != beacon_key(
                    seen[i as int]@,
                ) by {
                    assert(before.contains(before[a]));
                    let j = choose|j: int| 0 <= j < i && before[a] == (#[trigger] seen[j])@;
                    assert(beacon_key(seen[j]@) != beacon_key(seen[i as int]@));
                }
            }
            let p: usize = list_one(&mut out, self.seen[i].dup());
            proof {
                drawn_from_grows(before, p as int, seen, i as int);
                lists_all_grows(before, p as int, seen, i as int);
            }
            i = i + 1;
        }
        proof {
            let s = beacons_view(out@);
            assert forall|a: int| 0 <= a < s.len() implies m.contains_key(beacon_key(#[trigger] s[a])) && m[beacon_key(s[a])]
                == s[a] by {
                assert(s.contains(s[a]));
                let j = choose|j: int| 0 <= j < i && s[a] == (#[trigger] seen[j])@;
                seen_at(seen, j);
            }
            assert forall|k: (Seq<char>, Seq<u8>)| #[trigger] m.contains_key(k) implies s.contains(m[k]) by {
                assert(holds(seen, k));
                let j = place_of(seen, k);
                seen_at(seen, j);
                assert(s.contains(seen[j]@));
            }
        }
        out
    }

    /// Send an (encrypted) WebRTC signal to a host/peer. Nothing goes out where `to` is no
    /// key.
    pub fn send_signal(&mut self, to: &PubKey, sig: &Signal, now: u64)
        requires
            encode_utf8(signal_text(sig@)).len() <= AEAD_MAX,
        ensures
            shared_of(old(self).secret(), to@) is None ==> final(self).published() == old(self).published(),
            shared_of(old(self).secret(), to@) is Some ==> exists|nonce: Seq<u8>, r: Option<Event>| #[trigger]
                signal_made(old(self).secret(), old(self).public(), to@, now, sig@, nonce, r) && final(self).published()
                    == sent_with(old(self).published(), r) && (r matches Some(ev) ==> old(self).sound() ==> event_valid(
                    ev@,
                ) && forall|them: Identity| #[trigger]
                    them.wf() && them.public() == to@ ==> signal_in(ev@, them.secret()) == Some(sig@)),
            final(self).subscribed() == old(self).subscribed(),
            final(self).delivered() == old(self).delivered(),
            final(self).state() == old(self).state(),
            final(self).wf() == old(self).wf(),
            final(self).secret() == old(self).secret(),
            final(self).public() == old(self).public(),
            final(self).sound() == old(self).sound(),
    {
        let ev: Option<Event> = sig.to_event(&self.id, to, now);
        match &ev {
            Some(e) => self.relay.publish(e),
            None => {},
        }
        proof {
            if shared_of(old(self).secret(), to@) is Some {
                let nonce = choose|nonce: Seq<u8>| #[trigger]
                    signal_made(old(self).secret(), old(self).public(), to@, now, sig@, nonce, ev);
                if let Some(e) = ev {
                    assert forall|them: Identity| #[trigger]
                        them.wf() && old(self).sound() && them.public() == to@ implies signal_in(e@, them.secret()) == Some(
                        sig@,
                    ) by {
                        assert(them.wf() && self.id.wf() && them.public() == to@);
                    }
                }
                assert(signal_made(old(self).secret(), old(self).public(), to@, now, sig@, nonce, ev));
            }
        }
    }
}

/// The topics that narrow beacon discovery: those of the regions, or the shared one.
pub open spec fn topics_of(regions: Seq<Seq<char>>) -> Seq<Seq<char>> {
    if regions.len() == 0 {
        seq![GLOBAL_TOPIC@]
    } else {
        Seq::new(regions.len(), |i: int| topic_of(regions[i]))
    }
}

/// What was handed over once the event, if there is one, was too.
pub open spec fn sent_with(published: Seq<EventV>, ev: Option<Event>) -> Seq<EventV> {
    match ev {
        Some(e) => published.push(e@),
        None => published,
    }
}

// ----------------------------------------------------------------------
// Laws
// ----------------------------------------------------------------------

/// To deliver an event again changes nothing and gives nothing out.
pub proof fn an_event_counts_once(l: LobbyV, e: EventV, secret: Seq<u8>)
    ensures
        heard(heard(l, e), e) == heard(l, e),
        signal_heard(heard(l, e), e, secret) is None,
{
    let after = heard(l, e);
    if !l.recent.contains(e.id) {
        let all = l.recent.push(e.id);
        assert(after.recent[after.recent.len() - 1] == e.id);
    }
    assert(after.recent.contains(e.id));
}

/// An event that is not signed by its author teaches the lobby nothing but its id.
pub proof fn forgeries_teach_nothing(l: LobbyV, e: EventV, secret: Seq<u8>)
    requires
        !event_valid(e),
    ensures
        heard(l, e).seen == l.seen,
        signal_heard(l, e, secret) is None,
{
}

/// However many events arrive, at most the newest `RECENT` ids are kept, each once.
pub proof fn memory_is_bounded(l: LobbyV, es: Seq<EventV>)
    requires
        l.recent.len() <= RECENT,
        l.recent.no_duplicates(),
    ensures
        heard_all(l, es).recent.len() <= RECENT,
        heard_all(l, es).recent.no_duplicates(),
    decreases es.len(),
{
    if es.len() > 0 {
        memory_is_bounded(l, es.drop_last());
        let before = heard_all(l, es.drop_last()).recent;
        let id = es.last().id;
        if !before.contains(id) {
            let all = before.push(id);
            assert forall|i: int, j: int| 0 <= i < all.len() && 0 <= j < all.len() && i != j implies all[i] != all[j] by {
                if i < before.len() {
                    assert(all[i] == before[i]);
                }
                if j < before.len() {
                    assert(all[j] == before[j]);
                }
            }
            assert forall|i: int, j: int|
                0 <= i < all.drop_first().len() && 0 <= j < all.drop_first().len() && i != j implies all.drop_first()[i]
                != all.drop_first()[j] by {
                assert(all[i + 1] != all[j + 1]);
            }
        }
    }
}

/// A beacon of a region and host not seen before is kept.
pub proof fn a_new_region_is_discovered(l: LobbyV, e: EventV, b: BeaconV)
    requires
        !l.recent.contains(e.id),
        event_valid(e),
        beacon_in(e) == Some(b),
        !l.seen.contains_key(beacon_key(b)),
    ensures
        heard(l, e).seen == l.seen.insert(beacon_key(b), b),
{
}

/// The freshest beacon of a region and host is kept: once a beacon was heard, the one that is kept
/// is at least as late, and none that was kept ever gives way to an earlier one.
pub proof fn the_freshest_beacon_is_kept(l: LobbyV, e: EventV, b: BeaconV)
    requires
        !l.recent.contains(e.id),
        event_valid(e),
        beacon_in(e) == Some(b),
    ensures
        heard(l, e).seen.contains_key(beacon_key(b)),
        heard(l, e).seen[beacon_key(b)].tick >= b.tick,
        forall|k: (Seq<char>, Seq<u8>)| #[trigger]
            l.seen.contains_key(k) ==> heard(l, e).seen.contains_key(k) && heard(l, e).seen[k].tick >= l.seen[k].tick,
{
}

/// A signal passes the filter of its recipient, and of nobody else, whatever regions they
/// watch.
pub proof fn signals_reach_their_recipient_alone(e: EventV, to: Seq<u8>, me: Seq<u8>, topics: Seq<Seq<char>>)
    requires
        e.kind == KIND_SIGNAL,
        e.tags == signal_tags(to),
        to.len() == 32,
        me.len() == 32,
    ensures
        passes(signal_filter(me, None), e) <==> to == me,
        !passes(beacon_filter(topics, None), e),
{
    let f = signal_filter(me, None);
    assert(f.kinds[0] == KIND_SIGNAL);
    assert(f.recipients[0] == hex(me));
    assert(e.tags[0] == seq!["p"@, hex(to)]);
    assert(e.tags[0][0] == "p"@ && e.tags[0][1] == hex(to));
    if to == me {
        assert(tagged(e.tags, "p"@, hex(me)));
        assert(tagged_any(e, "p"@, f.recipients));
    }
    if passes(f, e) {
        assert(tagged(e.tags, "p"@, hex(me)));
        key_hex_reads_back(to);
        key_hex_reads_back(me);
    }
}

/// Everybody finds a public region; an invite-only one passes the filter of those who watch
/// it.
pub proof fn beacons_reach_their_watchers(e: EventV, b: BeaconV)
    requires
        e.kind == KIND_BEACON,
        e.tags == beacon_tags(b),
    ensures
        passes(beacon_filter(seq![topic_of(b.region)], None), e),
        !b.private ==> passes(beacon_filter(seq![GLOBAL_TOPIC@], None), e),
{
    let own = seq![topic_of(b.region)];
    let f = beacon_filter(own, None);
    assert(f.kinds[0] == KIND_BEACON);
    assert(e.tags[0] == seq!["t"@, topic_of(b.region)]);
    assert(e.tags[0][0] == "t"@ && e.tags[0][1] == topic_of(b.region));
    assert(tagged(e.tags, "t"@, own[0]));
    assert(tagged_any(e, "t"@, own));
    if !b.private {
        let all = seq![GLOBAL_TOPIC@];
        let g = beacon_filter(all, None);
        assert(g.kinds[0] == KIND_BEACON);
        assert(e.tags[1] == seq!["t"@, GLOBAL_TOPIC@]);
        assert(e.tags[1][0] == "t"@ && e.tags[1][1] == GLOBAL_TOPIC@);
        assert(tagged(e.tags, "t"@, all[0]));
        assert(tagged_any(e, "t"@, all));
    }
}

} // verus!
