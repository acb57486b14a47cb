//! Matchmaking and the WebRTC handshake, over Nostr relays.
//!
//! No matchmaking server: the lobby is a set of public relays everyone gossips through. A host
//! advertises its region with a beacon; a joiner queries beacons to see live worlds, then
//! trades encrypted SDP/ICE with the chosen host until a data channel opens, after which the
//! relay is never used again.

use crate::crypto::{hex_encode, PubKey};
use crate::json::{bracketed, comma_list, member_json, members_json, number_text, object_json, quoted_list, texts, write_list, write_string};
use crate::nostr::{tagged, Event, EventV, KIND_BEACON, KIND_SIGNAL};
use crate::text::{dec, hex, push_dec, push_text, str_eq};
use vstd::prelude::*;

verus! {

// ----------------------------------------------------------------------
// Filters
// ----------------------------------------------------------------------

/// A relay subscription filter (the subset of NIP-01 we use).
#[derive(Clone, Debug)]
pub struct Filter {
    pub kinds: Vec<u32>,
    /// `#t` tag values (region topics)
    pub topics: Vec<String>,
    /// `#p` tag values (recipient pubkeys, hex)
    pub recipients: Vec<String>,
    /// only events at/after this unix time
    pub since: Option<u64>,
}

/// A filter by its contents.
#[verifier::ext_equal]
pub struct FilterV {
    pub kinds: Seq<u32>,
    pub topics: Seq<Seq<char>>,
    pub recipients: Seq<Seq<char>>,
    pub since: Option<u64>,
}

impl View for Filter {
    type V = FilterV;

    open spec fn view(&self) -> FilterV {
        FilterV {
            kinds: self.kinds@,
            topics: texts(self.topics@),
            recipients: texts(self.recipients@),
            since: self.since,
        }
    }
}

impl Default for Filter {
    /// The filter that restricts nothing.
    fn default() -> (f: Filter)
        ensures
            f@ == (FilterV { kinds: Seq::empty(), topics: Seq::empty(), recipients: Seq::empty(), since: None }),
    {
        let f = Filter { kinds: Vec::new(), topics: Vec::new(), recipients: Vec::new(), since: None };
        proof {
            assert(f@ =~= (FilterV { kinds: Seq::empty(), topics: Seq::empty(), recipients: Seq::empty(), since: None }));
        }
        f
    }
}

/// Does the event carry one of the values under the tag name?
pub open spec fn tagged_any(e: EventV, name: Seq<char>, values: Seq<Seq<char>>) -> bool {
    exists|i: int| 0 <= i < values.len() && tagged(e.tags, name, #[trigger] values[i])
}

/// Does a filter let an event through? What a filter does not mention it does not restrict.
pub open spec fn passes(f: FilterV, e: EventV) -> bool {
    &&& f.kinds.len() == 0 || f.kinds.contains(e.kind)
    &&& f.since matches Some(t) ==> e.created_at >= t
    &&& f.topics.len() == 0 || tagged_any(e, "t"@, f.topics)
    &&& f.recipients.len() == 0 || tagged_any(e, "p"@, f.recipients)
}

pub open spec fn numerals(v: Seq<u32>) -> Seq<Seq<char>> {
    Seq::new(v.len(), |i: int| dec(v[i] as nat))
}

pub open spec fn with_member(
    ms: Seq<(Seq<char>, Seq<char>)>,
    on: bool,
    name: Seq<char>,
    value: Seq<char>,
) -> Seq<(Seq<char>, Seq<char>)> {
    if on {
        ms.push((name, value))
    } else {
        ms
    }
}

/// The members of a filter's JSON: only what the filter mentions.
pub open spec fn filter_members(f: FilterV) -> Seq<(Seq<char>, Seq<char>)> {
    let a = with_member(Seq::empty(), f.kinds.len() > 0, "kinds"@, bracketed(comma_list(numerals(f.kinds))));
    let b = with_member(a, f.topics.len() > 0, "#t"@, bracketed(quoted_list(f.topics)));
    let c = with_member(b, f.recipients.len() > 0, "#p"@, bracketed(quoted_list(f.recipients)));
    with_member(
        c,
        f.since is Some,
        "since"@,
        match f.since {
            Some(t) => dec(t as nat),
            None => Seq::empty(),
        },
    )
}

/// The NIP-01 REQ filter JSON.
pub open spec fn filter_json(f: FilterV) -> Seq<char> {
    object_json(filter_members(f))
}

proof fn members_push(ms: Seq<(Seq<char>, Seq<char>)>, name: Seq<char>, value: Seq<char>)
    ensures
        members_json(ms.push((name, value))) == (if ms.len() == 0 {
            member_json(name, value)
        } else {
            members_json(ms) + seq![','] + member_json(name, value)
        }),
        ms.len() > 0 ==> members_json(ms).len() > 0,
    decreases ms.len(),
{
    let all = ms.push((name, value));
    if ms.len() > 0 {
        let tail = ms.drop_first();
        members_push(tail, name, value);
        assert(all.drop_first() =~= tail.push((name, value)));
        assert(members_json(all) =~= members_json(ms) + seq![','] + member_json(name, value));
    }
}

/// Add a member to the members written so far.
fn add_member(body: &mut String, Ghost(ms): Ghost<Seq<(Seq<char>, Seq<char>)>>, name: &str, value: &str)
    requires
        old(body)@ == members_json(ms),
    ensures
        final(body)@ == members_json(ms.push((name@, value@))),
{
    proof {
        members_push(ms, name@, value@);
        if ms.len() == 0 {
            assert(body@ =~= Seq::empty());
        }
    }
    if !body.as_str().is_empty() {
        body.push(',');
    }
    write_string(body, name);
    body.push(':');
    push_text(body, value);
    proof {
        assert(body@ =~= members_json(ms.push((name@, value@))));
    }
}

fn numbers_text(v: &Vec<u32>) -> (r: String)
    ensures
        r@ == bracketed(comma_list(numerals(v@))),
{
    let ghost all = numerals(v@);
    let mut out = String::new();
    out.push('[');
    let ghost base = out@;
    let mut i: usize = 0;
    proof {
        assert(all.skip(0) =~= all);
    }
    while i < v.len()
        invariant
            i <= v@.len(),
            all == numerals(v@),
            out@ + (if i == 0 || i == all.len() {
                comma_list(all.skip(i as int))
            } else {
                seq![','] + comma_list(all.skip(i as int))
            }) == base + comma_list(all),
        decreases v@.len() - i,
    {
        let ghost before = out@;
        let ghost rest = all.skip(i as int);
        if i > 0 {
            out.push(',');
        }
        push_dec(&mut out, v[i] as u64);
        proof {
            assert(rest.drop_first() =~= all.skip(i + 1));
            assert(rest[0] == dec(v@[i as int] as nat));
            assert(out@ + (if i + 1 == all.len() {
                comma_list(all.skip(i + 1))
            } else {
                seq![','] + comma_list(all.skip(i + 1))
            }) =~= before + (if i == 0 {
                comma_list(rest)
            } else {
                seq![','] + comma_list(rest)
            }));
        }
        i = i + 1;
    }
    proof {
        assert(out@ + comma_list(all.skip(i as int)) =~= out@);
    }
    out.push(']');
    proof {
        assert(out@ =~= bracketed(comma_list(all)));
    }
    out
}

fn strings_text(v: &Vec<String>) -> (r: String)
    ensures
        r@ == bracketed(quoted_list(texts(v@))),
{
    let mut out = String::new();
    out.push('[');
    write_list(&mut out, v);
    out.push(']');
    proof {
        assert(out@ =~= bracketed(quoted_list(texts(v@))));
    }
    out
}

fn any_tagged(ev: &Event, name: &str, values: &Vec<String>) -> (r: bool)
    ensures
        r == tagged_any(ev@, name@, texts(values@)),
{
    let ghost all = texts(values@);
    let mut i: usize = 0;
    while i < values.len()
        invariant
            i <= values@.len(),
            all == texts(values@),
            forall|k: int| 0 <= k < i ==> !tagged(ev@.tags, name@, #[trigger] all[k]),
        decreases values@.len() - i,
    {
        proof {
            assert(all[i as int] == values@[i as int]@);
        }
        if ev.has_tag(name, values[i].as_str()) {
            return true;
        }
        i = i + 1;
    }
    false
}

fn has_kind(kinds: &Vec<u32>, kind: u32) -> (r: bool)
    ensures
        r == kinds@.contains(kind),
{
    let mut i: usize = 0;
    while i < kinds.len()
        invariant
            i <= kinds@.len(),
            forall|k: int| 0 <= k < i ==> kinds@[k] != kind,
        decreases kinds@.len() - i,
    {
        if kinds[i] == kind {
            proof {
                assert(kinds@[i as int] == kind);
            }
            return true;
        }
        i = i + 1;
    }
    false
}

/// Are the kinds the same, in the same order?
pub fn same_kinds(a: &Vec<u32>, b: &Vec<u32>) -> (r: bool)
    ensures
        r == (a@ == b@),
{
    if a.len() != b.len() {
        return false;
    }
    let mut i: usize = 0;
    while i < a.len()
        invariant
            i <= a@.len(),
            a@.len() == b@.len(),
            forall|k: int| 0 <= k < i ==> a@[k] == b@[k],
        decreases a@.len() - i,
    {
        if a[i] != b[i] {
            return false;
        }
        i = i + 1;
    }
    proof {
        assert(a@ =~= b@);
    }
    true
}

fn same_texts(a: &Vec<String>, b: &Vec<String>) -> (r: bool)
    ensures
        r == (texts(a@) == texts(b@)),
{
    if a.len() != b.len() {
        proof {
            assert(texts(a@).len() != texts(b@).len());
        }
        return false;
    }
    let mut i: usize = 0;
    while i < a.len()
        invariant
            i <= a@.len(),
            a@.len() == b@.len(),
            forall|k: int| 0 <= k < i ==> (#[trigger] a@[k])@ == b@[k]@,
        decreases a@.len() - i,
    {
        if !str_eq(a[i].as_str(), b[i].as_str()) {
            proof {
                assert(texts(a@)[i as int] != texts(b@)[i as int]);
            }
            return false;
        }
        i = i + 1;
    }
    proof {
        assert(texts(a@) =~= texts(b@));
    }
    true
}

impl Filter {
    pub fn matches(&self, ev: &Event) -> (r: bool)
        ensures
            r == passes(self@, ev@),
    {
        if self.kinds.len() > 0 && !has_kind(&self.kinds, ev.kind) {
            return false;
        }
        match self.since {
            Some(since) => {
                if ev.created_at < since {
                    return false;
                }
            },
            None => {},
        }
        if self.topics.len() > 0 && !any_tagged(ev, "t", &self.topics) {
            return false;
        }
        if self.recipients.len() > 0 && !any_tagged(ev, "p", &self.recipients) {
            return false;
        }
        true
    }

    /// NIP-01 REQ filter JSON.
    pub fn to_json(&self) -> (r: String)
        ensures
            r@ == filter_json(self@),
    {
        let ghost f = self@;
        let mut body = String::new();
        let ghost mut ms: Seq<(Seq<char>, Seq<char>)> = Seq::empty();
        proof {
            assert(body@ =~= members_json(ms));
        }
        if self.kinds.len() > 0 {
            add_member(&mut body, Ghost(ms), "kinds", numbers_text(&self.kinds).as_str());
            proof {
                ms = ms.push(("kinds"@, bracketed(comma_list(numerals(f.kinds)))));
            }
        }
        if self.topics.len() > 0 {
            add_member(&mut body, Ghost(ms), "#t", strings_text(&self.topics).as_str());
            proof {
                ms = ms.push(("#t"@, bracketed(quoted_list(f.topics))));
            }
        }
        if self.recipients.len() > 0 {
            add_member(&mut body, Ghost(ms), "#p", strings_text(&self.recipients).as_str());
            proof {
                ms = ms.push(("#p"@, bracketed(quoted_list(f.recipients))));
            }
        }
        match self.since {
            Some(since) => {
                add_member(&mut body, Ghost(ms), "since", number_text(since).as_str());
                proof {
                    ms = ms.push(("since"@, dec(since as nat)));
                }
            },
            None => {},
        }
        proof {
            assert(ms =~= filter_members(f));
        }
        let mut out = String::new();
        out.push('{');
        push_text(&mut out, body.as_str());
        out.push('}');
        proof {
            assert(out@ =~= filter_json(f));
        }
        out
    }

    /// Do two filters ask for the same?
    pub fn same(&self, other: &Filter) -> (r: bool)
        ensures
            r == (self@ == other@),
    {
        let since: bool = match (self.since, other.since) {
            (Some(a), Some(b)) => a == b,
            (None, None) => true,
            _ => false,
        };
        if since && same_kinds(&self.kinds, &other.kinds) && same_texts(&self.topics, &other.topics) && same_texts(
            &self.recipients,
            &other.recipients,
        ) {
            proof {
                assert(self@ =~= other@);
            }
            true
        } else {
            false
        }
    }

    /// The filter of one kind of event under some topics.
    pub fn beacons(topics: Vec<String>, since: Option<u64>) -> (f: Filter)
        ensures
            f@ == beacon_filter(texts(topics@), since),
    {
        let mut kinds: Vec<u32> = Vec::new();
        kinds.push(KIND_BEACON);
        let f = Filter { kinds, topics, recipients: Vec::new(), since };
        proof {
            assert(f@ =~= beacon_filter(texts(topics@), since));
        }
        f
    }

    /// The filter of the signals addressed to a key.
    pub fn signals(to: &PubKey, since: Option<u64>) -> (f: Filter)
        ensures
            f@ == signal_filter(to@, since),
    {
        let mut kinds: Vec<u32> = Vec::new();
        kinds.push(KIND_SIGNAL);
        let mut recipients: Vec<String> = Vec::new();
        recipients.push(hex_encode(to.as_slice()));
        let f = Filter { kinds, topics: Vec::new(), recipients, since };
        proof {
            assert(f@ =~= signal_filter(to@, since));
        }
        f
    }
}

pub open spec fn beacon_filter(topics: Seq<Seq<char>>, since: Option<u64>) -> FilterV {
    FilterV { kinds: seq![KIND_BEACON], topics, recipients: Seq::empty(), since }
}

pub open spec fn signal_filter(to: Seq<u8>, since: Option<u64>) -> FilterV {
    FilterV { kinds: seq![KIND_SIGNAL], topics: Seq::empty(), recipients: seq![hex(to)], since }
}

// ----------------------------------------------------------------------
// Relays
// ----------------------------------------------------------------------

/// A connection to one or more relays. Implementations move signed events; they never inspect
/// or trust them (verification is the lobby's job). What was published, asked for and delivered
/// is for proofs alone: an implementation that is not verified leaves it out.
pub trait RelayClient {
    /// The events handed over for publication.
    open spec fn published(&self) -> Seq<EventV> {
        Seq::empty()
    }

    /// The subscriptions installed.
    open spec fn subscribed(&self) -> Seq<FilterV> {
        Seq::empty()
    }

    /// What the polls so far brought, one batch after the other.
    open spec fn delivered(&self) -> Seq<Seq<EventV>> {
        Seq::empty()
    }

    /// Publish a signed event to the relay(s).
    fn publish(&mut self, ev: &Event)
        ensures
            final(self).published() == old(self).published().push(ev@),
            final(self).subscribed() == old(self).subscribed(),
            final(self).delivered() == old(self).delivered(),
    ;

    /// Install a subscription filter. New matching events surface from `poll`.
    fn subscribe(&mut self, filter: Filter)
        ensures
            final(self).published() == old(self).published(),
            final(self).subscribed() == old(self).subscribed().push(filter@),
            final(self).delivered() == old(self).delivered(),
    ;

    /// Drain events that have matched our subscriptions since the last poll.
    fn poll(&mut self) -> (r: Vec<Event>)
        ensures
            final(self).delivered() == old(self).delivered().push(events_view(r@)),
            final(self).published() == old(self).published(),
            final(self).subscribed() == old(self).subscribed(),
    ;
}

pub open spec fn events_view(v: Seq<Event>) -> Seq<EventV> {
    Seq::new(v.len(), |i: int| v[i]@)
}

pub open spec fn filters_view(v: Seq<Filter>) -> Seq<FilterV> {
    Seq::new(v.len(), |i: int| v[i]@)
}

/// Does any of the filters let the event through?
pub open spec fn passes_any(fs: Seq<FilterV>, e: EventV) -> bool {
    exists|i: int| 0 <= i < fs.len() && passes(#[trigger] fs[i], e)
}

/// The events that pass any of the filters, in their order.
pub open spec fn passing(fs: Seq<FilterV>, es: Seq<EventV>) -> Seq<EventV>
    decreases es.len(),
{
    if es.len() == 0 {
        Seq::empty()
    } else {
        let head = passing(fs, es.drop_last());
        if passes_any(fs, es.last()) {
            head.push(es.last())
        } else {
            head
        }
    }
}

/// The shared event log of an in-process relay. Construct one `MockHub` per scene; hand each
/// participant a `MockRelay::new(&hub)`.
pub struct MockHub {
    log: Vec<Event>,
}

impl View for MockHub {
    type V = Seq<EventV>;

    closed spec fn view(&self) -> Seq<EventV> {
        events_view(self.log@)
    }
}

impl MockHub {
    pub fn new() -> (h: MockHub)
        ensures
            h@ == Seq::<EventV>::empty(),
    {
        let h = MockHub { log: Vec::new() };
        proof {
            assert(h@ =~= Seq::<EventV>::empty());
        }
        h
    }

    /// How many events the log holds.
    pub fn len(&self) -> (n: usize)
        ensures
            n == self@.len(),
    {
        self.log.len()
    }

    /// The event at a place in the log.
    pub fn event(&self, i: usize) -> (r: Option<&Event>)
        ensures
            r is Some <==> i < self@.len(),
            r matches Some(e) ==> e@ == self@[i as int],
    {
        if i < self.log.len() {
            Some(&self.log[i])
        } else {
            None
        }
    }
}

/// A handle on an in-process relay: what it publishes goes into the hub at the next `sync`, and
/// what is new in the hub reaches it there. `poll` gives out what passes its filters.
pub struct MockRelay {
    filters: Vec<Filter>,
    cursor: usize,
    outbox: Vec<Event>,
    inbox: Vec<Event>,
    batches: Ghost<Seq<Seq<EventV>>>,
}

impl MockRelay {
    /// A handle that will read the hub from its beginning.
    pub fn new(hub: &MockHub) -> (r: MockRelay)
        ensures
            r.published() == Seq::<EventV>::empty(),
            r.subscribed() == Seq::<FilterV>::empty(),
            r.delivered() == Seq::<Seq<EventV>>::empty(),
            r.waiting() == Seq::<EventV>::empty(),
            r.place() == 0,
            r.place() <= hub@.len(),
    {
        let r = MockRelay {
            filters: Vec::new(),
            cursor: 0,
            outbox: Vec::new(),
            inbox: Vec::new(),
            batches: Ghost(Seq::empty()),
        };
        proof {
            assert(r.published() =~= Seq::<EventV>::empty());
            assert(r.subscribed() =~= Seq::<FilterV>::empty());
            assert(r.waiting() =~= Seq::<EventV>::empty());
        }
        r
    }

    /// The events that came out of the hub since the last poll, whatever the filters say.
    pub closed spec fn waiting(&self) -> Seq<EventV> {
        events_view(self.inbox@)
    }

    /// How far the handle has read the hub.
    pub closed spec fn place(&self) -> int {
        self.cursor as int
    }

    fn wants(&self, ev: &Event) -> (r: bool)
        ensures
            r == passes_any(self.subscribed(), ev@),
    {
        let mut i: usize = 0;
        while i < self.filters.len()
            invariant
                i <= self.filters@.len(),
                forall|k: int| 0 <= k < i ==> !passes(#[trigger] self.subscribed()[k], ev@),
            decreases self.filters@.len() - i,
        {
            proof {
                assert(self.subscribed()[i as int] == self.filters@[i as int]@);
            }
            if self.filters[i].matches(ev) {
                return true;
            }
            i = i + 1;
        }
        false
    }

    /// Put what was published into the hub, and take what is new in the hub.
    pub fn sync(&mut self, hub: &mut MockHub)
        requires
            old(self).place() <= old(hub)@.len(),
        ensures
            final(hub)@ == old(hub)@ + old(self).published(),
            final(self).published() == Seq::<EventV>::empty(),
            final(self).subscribed() == old(self).subscribed(),
            final(self).delivered() == old(self).delivered(),
            final(self).place() == final(hub)@.len(),
            final(self).waiting() == old(self).waiting() + final(hub)@.skip(old(self).place()),
    {
        let ghost h0 = hub@;
        let ghost out0 = self.published();
        let ghost in0 = self.waiting();
        hub.log.append(&mut self.outbox);
        proof {
            assert(hub@ =~= h0 + out0);
            assert(self.published() =~= Seq::<EventV>::empty());
        }
        let ghost start = self.cursor;
        let ghost tail = hub@.skip(start as int);
        proof {
            assert(in0 + tail.take(0) =~= in0);
        }
        while self.cursor < hub.log.len()
            invariant
                start <= self.cursor <= hub.log@.len(),
                hub@ == h0 + out0,
                tail == hub@.skip(start as int),
                self.subscribed() == old(self).subscribed(),
                self.delivered() == old(self).delivered(),
                self.published() == Seq::<EventV>::empty(),
                self.waiting() == in0 + tail.take(self.cursor - start),
            decreases hub.log@.len() - self.cursor,
        {
            let ev: Event = hub.log[self.cursor].dup();
            let ghost k = self.cursor - start;
            let ghost before = self.inbox@;
            proof {
                assert(tail[k] == ev@);
            }
            self.inbox.push(ev);
            self.cursor = self.cursor + 1;
            proof {
                assert(self.waiting() =~= events_view(before).push(ev@));
                assert(self.waiting() =~= in0 + tail.take(k + 1));
            }
        }
        proof {
            assert(tail.take(self.cursor - start) =~= tail);
        }
    }
}

impl RelayClient for MockRelay {
    closed spec fn published(&self) -> Seq<EventV> {
        events_view(self.outbox@)
    }

    closed spec fn subscribed(&self) -> Seq<FilterV> {
        filters_view(self.filters@)
    }

    closed spec fn delivered(&self) -> Seq<Seq<EventV>> {
        self.batches@
    }

    fn publish(&mut self, ev: &Event)
        ensures
            final(self).waiting() == old(self).waiting(),
            final(self).place() == old(self).place(),
    {
        self.outbox.push(ev.dup());
        proof {
            assert(self.published() =~= old(self).published().push(ev@));
        }
    }

    fn subscribe(&mut self, filter: Filter)
        ensures
            final(self).waiting() == old(self).waiting(),
            final(self).place() == old(self).place(),
    {
        self.filters.push(filter);
        proof {
            assert(self.subscribed() =~= old(self).subscribed().push(filter@));
        }
    }

    fn poll(&mut self) -> (r: Vec<Event>)
        ensures
            events_view(r@) == passing(old(self).subscribed(), old(self).waiting()),
            final(self).waiting() == Seq::<EventV>::empty(),
            final(self).place() == old(self).place(),
    {
        let ghost all = self.waiting();
        let ghost subs = self.subscribed();
        let mut r: Vec<Event> = Vec::new();
        let mut i: usize = 0;
        proof {
            assert(events_view(r@) =~= passing(subs, all.take(0)));
        }
        while i < self.inbox.len()
            invariant
                i <= self.inbox@.len(),
                *self == *old(self),
                all == self.waiting(),
                subs == self.subscribed(),
                events_view(r@) == passing(subs, all.take(i as int)),
            decreases self.inbox@.len() - i,
        {
            let ghost before = r@;
            proof {
                assert(all.take(i + 1).drop_last() =~= all.take(i as int));
                assert(all.take(i + 1).last() == self.inbox@[i as int]@);
            }
            if self.wants(&self.inbox[i]) {
                r.push(self.inbox[i].dup());
                proof {
                    assert(events_view(r@) =~= events_view(before).push(self.inbox@[i as int]@));
                }
            }
            i = i + 1;
        }
        self.inbox = Vec::new();
        self.batches = Ghost(self.batches@.push(events_view(r@)));
        proof {
            assert(all.take(i as int) =~= all);
            assert(self.waiting() =~= Seq::<EventV>::empty());
        }
        r
    }
}

} // verus!
