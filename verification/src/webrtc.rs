//! The browser transport's framing: relay messages, mesh events and the signaling bridge.
//!
//! JavaScript owns the sockets: the relay connections and the peer connections with their data
//! channels. It speaks no crypto and makes no decisions; it is a dumb pipe with a poll queue.
//! Here is the meaning of what goes through it: what a relay is told and what it brings, what
//! a peer connection wants sent and what is to be fed to it.

use crate::crypto::{hex_decode32, hex_encode, shared_of, unhex32, PubKey, AEAD_MAX};
use crate::json::{is_digit, json_of, parse, quoted, take_items, Json, JsonV, CLOSE_BRACKET, COMMA, OPEN_BRACKET};
use crate::json_laws::{ascii, dec_digits, item_step, no_blank, string_reads_back, utf8_concat, utf8_one};
use crate::lobby::{heard_all, sent_with, signals_heard, signals_view, Lobby, LobbyV};
use crate::nostr::{event_in, event_json, Event, EventV};
use crate::nostr_laws::{event_entries, event_fits, event_reads};
use crate::ser::{key_of, le_value, R};
use crate::signal::{signal_made, signal_text, Signal, SignalV};
use crate::signaling::{events_view, filter_json, filters_view, same_kinds, Filter, FilterV, RelayClient};
use crate::state::ConnId;
use crate::text::{dec, dec_reads_back, hex, push_dec, push_text, str_eq, string_from_utf8, text_of};
use crate::transport::TransportEv;
use vstd::prelude::*;
use vstd::utf8::{decode_utf8, encode_utf8, valid_utf8};

verus! {

// ----------------------------------------------------------------------
// Relay messages
// ----------------------------------------------------------------------

/// The message that publishes an event: `["EVENT",<event>]`.
pub open spec fn event_frame(e: EventV) -> Seq<char> {
    "[\"EVENT\","@ + event_json(e) + "]"@
}

/// The kinds of a filter, each behind a dash.
pub open spec fn dashed(kinds: Seq<u32>) -> Seq<char>
    decreases kinds.len(),
{
    if kinds.len() == 0 {
        Seq::empty()
    } else {
        dashed(kinds.drop_last()) + seq!['-'] + dec(kinds.last() as nat)
    }
}

/// The name of the subscriptions to some kinds.
pub open spec fn sub_name(kinds: Seq<u32>) -> Seq<char> {
    "ivn"@ + dashed(kinds)
}

/// Where a filter stands among the filters asked for so far: its first place, or the next one.
pub open spec fn place_of(asked: Seq<FilterV>, f: FilterV, i: int) -> int
    decreases asked.len() - i,
{
    if i < 0 || i >= asked.len() {
        asked.len() as int
    } else if asked[i] == f {
        i
    } else {
        place_of(asked, f, i + 1)
    }
}

/// Does a filter before place `n` ask for the same kinds?
pub open spec fn shares(asked: Seq<FilterV>, kinds: Seq<u32>, n: int) -> bool {
    exists|j: int| 0 <= j < n && (#[trigger] asked[j]).kinds == kinds
}

/// The subscription id of a filter, given the filters asked for so far: the name of its kinds, and
/// its place where a filter before it has that name.
pub open spec fn sub_id(asked: Seq<FilterV>, f: FilterV) -> Seq<char> {
    let n = place_of(asked, f, 0);
    if shares(asked, f.kinds, n) {
        sub_name(f.kinds) + seq!['x'] + dec(n as nat)
    } else {
        sub_name(f.kinds)
    }
}

/// The message that subscribes: `["REQ","<id>",<filter>]`.
pub open spec fn req_frame(asked: Seq<FilterV>, f: FilterV) -> Seq<char> {
    "[\"REQ\",\""@ + sub_id(asked, f) + "\","@ + filter_json(f) + "]"@
}

/// The event in a relay's message `["EVENT",<id>,<event>]`.
pub open spec fn relay_event_in(frame: Seq<u8>) -> Option<EventV> {
    if !valid_utf8(frame) {
        None
    } else {
        match json_of(frame) {
            Some(JsonV::Arr(xs)) => if xs.len() > 2 && xs[0] == JsonV::Str("EVENT"@) {
                event_in(xs[2])
            } else {
                None
            },
            _ => None,
        }
    }
}

pub open spec fn relay_events_in(frames: Seq<Seq<u8>>) -> Seq<EventV>
    decreases frames.len(),
{
    if frames.len() == 0 {
        Seq::empty()
    } else {
        let head = relay_events_in(frames.drop_last());
        match relay_event_in(frames.last()) {
            Some(e) => head.push(e),
            None => head,
        }
    }
}

/// The message that publishes an event.
pub fn publish_frame(ev: &Event) -> (r: String)
    ensures
        r@ == event_frame(ev@),
{
    let mut s: String = text_of("[\"EVENT\",");
    push_text(&mut s, ev.to_json().as_str());
    push_text(&mut s, "]");
    s
}

fn place(asked: &Vec<Filter>, f: &Filter) -> (n: usize)
    ensures
        n == place_of(filters_view(asked@), f@, 0),
        n <= asked@.len(),
{
    let ghost all = filters_view(asked@);
    let mut i: usize = 0;
    while i < asked.len()
        invariant
            i <= asked@.len(),
            all == filters_view(asked@),
            place_of(all, f@, 0) == place_of(all, f@, i as int),
        decreases asked@.len() - i,
    {
        proof {
            assert(all[i as int] == asked@[i as int]@);
        }
        if asked[i].same(f) {
            return i;
        }
        i = i + 1;
    }
    i
}

fn shared(asked: &Vec<Filter>, kinds: &Vec<u32>, n: usize) -> (r: bool)
    requires
        n <= asked@.len(),
    ensures
        r == shares(filters_view(asked@), kinds@, n as int),
{
    let ghost all = filters_view(asked@);
    let mut i: usize = 0;
    while i < n
        invariant
            i <= n <= asked@.len(),
            all == filters_view(asked@),
            forall|j: int| 0 <= j < i ==> (#[trigger] all[j]).kinds != kinds@,
        decreases n - i,
    {
        proof {
            assert(all[i as int] == asked@[i as int]@);
        }
        if same_kinds(&asked[i].kinds, kinds) {
            return true;
        }
        i = i + 1;
    }
    false
}

/// The message that subscribes, given the filters asked for so far.
///
/// A relay replaces the subscription whose id a request reuses. The lobby installs several filters
/// (beacons, signals, a private region); under one id the last would clobber the others, and the
/// peer would go deaf to discovery or signaling. So every filter has an id of its own.
pub fn subscribe_frame(asked: &Vec<Filter>, filter: &Filter) -> (r: String)
    ensures
        r@ == req_frame(filters_view(asked@), filter@),
{
    let mut s: String = text_of("[\"REQ\",\"");
    push_text(&mut s, "ivn");
    let ghost base = s@;
    let mut i: usize = 0;
    proof {
        assert(base + dashed(filter.kinds@.take(0)) =~= base);
    }
    while i < filter.kinds.len()
        invariant
            i <= filter.kinds@.len(),
            s@ == base + dashed(filter.kinds@.take(i as int)),
        decreases filter.kinds@.len() - i,
    {
        proof {
            assert(filter.kinds@.take(i + 1).drop_last() =~= filter.kinds@.take(i as int));
        }
        s.push('-');
        push_dec(&mut s, filter.kinds[i] as u64);
        proof {
            assert(s@ =~= base + dashed(filter.kinds@.take(i + 1)));
        }
        i = i + 1;
    }
    proof {
        assert(filter.kinds@.take(i as int) =~= filter.kinds@);
        assert(s@ =~= "[\"REQ\",\""@ + sub_name(filter.kinds@));
    }
    let n: usize = place(asked, filter);
    if shared(asked, &filter.kinds, n) {
        s.push('x');
        push_dec(&mut s, n as u64);
    }
    proof {
        assert(s@ =~= "[\"REQ\",\""@ + sub_id(filters_view(asked@), filter@));
    }
    push_text(&mut s, "\",");
    push_text(&mut s, filter.to_json().as_str());
    push_text(&mut s, "]");
    s
}

/// The event that a relay's message brings.
pub fn relay_event(frame: Vec<u8>) -> (r: Option<Event>)
    ensures
        match relay_event_in(frame@) {
            Some(e) => r is Some && r->0@ == e,
            None => r is None,
        },
{
    let ghost bytes = frame@;
    let text: String = string_from_utf8(frame)?;
    proof {
        vstd::utf8::decode_utf8_encode_utf8(bytes);
    }
    let json: Json = parse(text.as_str())?;
    let arr: &Vec<Json> = json.as_arr()?;
    if arr.len() <= 2 {
        return None;
    }
    match arr[0].as_str() {
        Some(s) => {
            if str_eq(s, "EVENT") {
                Event::from_json(&arr[2])
            } else {
                None
            }
        },
        None => None,
    }
}

pub open spec fn frames_view(v: Seq<Vec<u8>>) -> Seq<Seq<u8>> {
    Seq::new(v.len(), |i: int| v[i]@)
}

/// A relay client whose frames travel through the JavaScript socket pool: what it says waits
/// in an outbox, and what the relays say is fed to it.
pub struct WasmRelay {
    urls: Vec<String>,
    outbox: Vec<String>,
    inbox: Vec<Vec<u8>>,
    events: Ghost<Seq<EventV>>,
    filters: Vec<Filter>,
    batches: Ghost<Seq<Seq<EventV>>>,
}

impl WasmRelay {
    /// The relays to connect to.
    pub closed spec fn targets(&self) -> Seq<Seq<char>> {
        crate::json::texts(self.urls@)
    }

    /// The messages that wait to be sent.
    pub closed spec fn outgoing(&self) -> Seq<Seq<char>> {
        crate::json::texts(self.outbox@)
    }

    /// The messages that arrived and were not polled yet.
    pub closed spec fn incoming(&self) -> Seq<Seq<u8>> {
        frames_view(self.inbox@)
    }

    /// A client of the given relays (such as `wss://relay.damus.io`).
    pub fn connect(urls: &[String]) -> (r: WasmRelay)
        ensures
            r.targets() == crate::json::texts(urls@),
            r.outgoing() == Seq::<Seq<char>>::empty(),
            r.incoming() == Seq::<Seq<u8>>::empty(),
            r.published() == Seq::<EventV>::empty(),
            r.subscribed() == Seq::<FilterV>::empty(),
            r.delivered() == Seq::<Seq<EventV>>::empty(),
    {
        let mut mine: Vec<String> = Vec::new();
        let mut i: usize = 0;
        while i < urls.len()
            invariant
                i <= urls@.len(),
                mine@.len() == i,
                forall|k: int| 0 <= k < i ==> (#[trigger] mine@[k])@ == urls@[k]@,
            decreases urls@.len() - i,
        {
            mine.push(urls[i].clone());
            i = i + 1;
        }
        let r = WasmRelay {
            urls: mine,
            outbox: Vec::new(),
            inbox: Vec::new(),
            events: Ghost(Seq::empty()),
            filters: Vec::new(),
            batches: Ghost(Seq::empty()),
        };
        proof {
            assert(r.targets() =~= crate::json::texts(urls@));
            assert(r.outgoing() =~= Seq::<Seq<char>>::empty());
            assert(r.incoming() =~= Seq::<Seq<u8>>::empty());
            assert(r.subscribed() =~= Seq::<FilterV>::empty());
        }
        r
    }

    /// The relays to connect to.
    pub fn urls(&self) -> (r: &Vec<String>)
        ensures
            crate::json::texts(r@) == self.targets(),
    {
        &self.urls
    }

    /// Take the messages that wait to be sent.
    pub fn take_outgoing(&mut self) -> (r: Vec<String>)
        ensures
            crate::json::texts(r@) == old(self).outgoing(),
            final(self).outgoing() == Seq::<Seq<char>>::empty(),
            final(self).incoming() == old(self).incoming(),
            final(self).targets() == old(self).targets(),
            final(self).published() == old(self).published(),
            final(self).subscribed() == old(self).subscribed(),
            final(self).delivered() == old(self).delivered(),
    {
        let mut r: Vec<String> = Vec::new();
        std::mem::swap(&mut r, &mut self.outbox);
        proof {
            assert(self.outgoing() =~= Seq::<Seq<char>>::empty());
        }
        r
    }

    /// A message arrived from a relay.
    pub fn feed(&mut self, frame: Vec<u8>)
        ensures
            final(self).incoming() == old(self).incoming().push(frame@),
            final(self).outgoing() == old(self).outgoing(),
            final(self).targets() == old(self).targets(),
            final(self).published() == old(self).published(),
            final(self).subscribed() == old(self).subscribed(),
            final(self).delivered() == old(self).delivered(),
    {
        self.inbox.push(frame);
        proof {
            assert(self.incoming() =~= old(self).incoming().push(frame@));
        }
    }
}

impl RelayClient for WasmRelay {
    closed spec fn published(&self) -> Seq<EventV> {
        self.events@
    }

    closed spec fn subscribed(&self) -> Seq<FilterV> {
        filters_view(self.filters@)
    }

    closed spec fn delivered(&self) -> Seq<Seq<EventV>> {
        self.batches@
    }

    fn publish(&mut self, ev: &Event)
        ensures
            final(self).outgoing() == old(self).outgoing().push(event_frame(ev@)),
            final(self).incoming() == old(self).incoming(),
            final(self).targets() == old(self).targets(),
    {
        self.outbox.push(publish_frame(ev));
        self.events = Ghost(self.events@.push(ev@));
        proof {
            assert(self.outgoing() =~= old(self).outgoing().push(event_frame(ev@)));
        }
    }

    fn subscribe(&mut self, filter: Filter)
        ensures
            final(self).outgoing() == old(self).outgoing().push(req_frame(old(self).subscribed(), filter@)),
            final(self).incoming() == old(self).incoming(),
            final(self).targets() == old(self).targets(),
    {
        self.outbox.push(subscribe_frame(&self.filters, &filter));
        self.filters.push(filter);
        proof {
            assert(self.subscribed() =~= old(self).subscribed().push(filter@));
            assert(self.outgoing() =~= old(self).outgoing().push(req_frame(old(self).subscribed(), filter@)));
        }
    }

    fn poll(&mut self) -> (r: Vec<Event>)
        ensures
            events_view(r@) == relay_events_in(old(self).incoming()),
            final(self).incoming() == Seq::<Seq<u8>>::empty(),
            final(self).outgoing() == old(self).outgoing(),
            final(self).targets() == old(self).targets(),
    {
        let ghost all = self.incoming();
        let mut out: Vec<Event> = Vec::new();
        proof {
            assert(all.take(0) =~= Seq::<Seq<u8>>::empty());
            assert(events_view(out@) =~= relay_events_in(all.take(0)));
            assert(all.skip(0) =~= all);
        }
        let ghost mut k: int = 0;
        while self.inbox.len() > 0
            invariant
                0 <= k <= all.len(),
                self.incoming() == all.skip(k),
                events_view(out@) == relay_events_in(all.take(k)),
                self.outgoing() == old(self).outgoing(),
                self.targets() == old(self).targets(),
                self.published() == old(self).published(),
                self.subscribed() == old(self).subscribed(),
                self.delivered() == old(self).delivered(),
            decreases self.inbox@.len(),
        {
            let ghost before = out@;
            let ghost inc = self.incoming();
            let frame: Vec<u8> = self.inbox.remove(0);
            proof {
                assert(inc[0] == frame@);
                assert(inc.len() == all.len() - k);
                assert(self.incoming() =~= inc.drop_first());
                assert(self.incoming() =~= all.skip(k + 1));
                assert(all.take(k + 1).drop_last() =~= all.take(k));
                assert(all.take(k + 1).last() == frame@);
            }
            match relay_event(frame) {
                Some(ev) => {
                    out.push(ev);
                    proof {
                        assert(events_view(out@) =~= events_view(before).push(ev@));
                    }
                },
                None => {},
            }
            proof {
                k = k + 1;
            }
        }
        proof {
            assert(all.skip(k).len() == 0);
            assert(all.take(k) =~= all);
            assert(self.incoming() =~= Seq::<Seq<u8>>::empty());
        }
        self.batches = Ghost(self.batches@.push(events_view(out@)));
        out
    }
}

// ----------------------------------------------------------------------
// Mesh events
// ----------------------------------------------------------------------

/// The connection that a mesh event is about.
pub open spec fn mesh_conn(frame: Seq<u8>) -> nat {
    le_value(frame.take(4))
}

/// Does the frame `conn(u32 le) | type(u8) | bytes…` announce the event? Type 0 is a link that
/// is up, 1 data, 2 a link that is gone.
pub open spec fn announces(frame: Seq<u8>, ev: TransportEv) -> bool {
    match ev {
        TransportEv::Connected { conn } => frame[4] == 0 && conn == mesh_conn(frame),
        TransportEv::Data { conn, bytes } => frame[4] == 1 && conn == mesh_conn(frame) && bytes@ == frame.skip(5),
        TransportEv::Closed { conn } => frame[4] == 2 && conn == mesh_conn(frame),
    }
}

/// The event that a frame of the mesh announces; nothing for a frame too short or of an
/// unknown type.
pub fn mesh_event(frame: &[u8]) -> (r: Option<TransportEv>)
    ensures
        r is Some <==> frame@.len() >= 5 && frame@[4] <= 2,
        r matches Some(ev) ==> announces(frame@, ev),
{
    if frame.len() < 5 {
        return None;
    }
    let mut rd = R::new(vstd::slice::slice_subrange(frame, 0, 4));
    proof {
        assert(rd@ =~= frame@.take(4));
        assert(rd@.take(4) =~= frame@.take(4));
    }
    let conn: ConnId = match rd.u32() {
        Ok(c) => c as ConnId,
        Err(_) => {
            return None;
        },
    };
    let kind: u8 = frame[4];
    if kind == 0 {
        Some(TransportEv::Connected { conn })
    } else if kind == 1 {
        let bytes: Vec<u8> = vstd::slice::slice_to_vec(vstd::slice::slice_subrange(frame, 5, frame.len()));
        proof {
            assert(bytes@ =~= frame@.skip(5));
        }
        Some(TransportEv::Data { conn, bytes })
    } else if kind == 2 {
        Some(TransportEv::Closed { conn })
    } else {
        None
    }
}

/// The WebRTC mesh: the events announced and not yet taken.
pub struct WebRtcMesh {
    events: Vec<TransportEv>,
}

impl WebRtcMesh {
    pub closed spec fn pending(&self) -> Seq<TransportEv> {
        self.events@
    }

    pub fn new() -> (m: WebRtcMesh)
        ensures
            m.pending() == Seq::<TransportEv>::empty(),
    {
        WebRtcMesh { events: Vec::new() }
    }

    /// A frame arrived from the mesh.
    pub fn feed(&mut self, frame: &[u8])
        ensures
            frame@.len() >= 5 && frame@[4] <= 2 ==> exists|ev: TransportEv| #[trigger]
                announces(frame@, ev) && final(self).pending() == old(self).pending().push(ev),
            !(frame@.len() >= 5 && frame@[4] <= 2) ==> final(self).pending() == old(self).pending(),
    {
        match mesh_event(frame) {
            Some(ev) => {
                proof {
                    assert(announces(frame@, ev));
                }
                self.events.push(ev);
            },
            None => {},
        }
    }

    /// Take the events announced so far, in their order.
    pub fn take(&mut self) -> (r: Vec<TransportEv>)
        ensures
            r@ == old(self).pending(),
            final(self).pending() == Seq::<TransportEv>::empty(),
    {
        let mut r: Vec<TransportEv> = Vec::new();
        std::mem::swap(&mut r, &mut self.events);
        r
    }
}

// ----------------------------------------------------------------------
// The signaling bridge
// ----------------------------------------------------------------------

/// What is to be fed to the peer connection of a peer, named by its key in hexadecimal. A
/// connection is stood up where the peer has none yet.
#[derive(Debug)]
pub enum RtcStep {
    /// a peer is dialing us: feed the offer to an answerer
    Offer { peer: String, sdp: String },
    /// apply the answer to our outbound connection
    Answer { peer: String, sdp: String },
    /// add the candidate
    Ice { peer: String, candidate: String },
}

#[verifier::ext_equal]
pub enum RtcStepV {
    Offer { peer: Seq<char>, sdp: Seq<char> },
    Answer { peer: Seq<char>, sdp: Seq<char> },
    Ice { peer: Seq<char>, candidate: Seq<char> },
}

impl View for RtcStep {
    type V = RtcStepV;

    open spec fn view(&self) -> RtcStepV {
        match *self {
            RtcStep::Offer { peer, sdp } => RtcStepV::Offer { peer: peer@, sdp: sdp@ },
            RtcStep::Answer { peer, sdp } => RtcStepV::Answer { peer: peer@, sdp: sdp@ },
            RtcStep::Ice { peer, candidate } => RtcStepV::Ice { peer: peer@, candidate: candidate@ },
        }
    }
}

pub open spec fn step_of(from: Seq<u8>, s: SignalV) -> RtcStepV {
    match s {
        SignalV::Offer(sdp) => RtcStepV::Offer { peer: hex(from), sdp },
        SignalV::Answer(sdp) => RtcStepV::Answer { peer: hex(from), sdp },
        SignalV::Ice(candidate) => RtcStepV::Ice { peer: hex(from), candidate },
    }
}

pub open spec fn steps_of(signals: Seq<(Seq<u8>, SignalV)>) -> Seq<RtcStepV> {
    Seq::new(signals.len(), |i: int| step_of(signals[i].0, signals[i].1))
}

/// A lobby went from `a` to `b` on the events, and these are the steps and the accepted peers
/// for the signals that they brought.
pub open spec fn bridged(
    a: LobbyV,
    b: LobbyV,
    secret: Seq<u8>,
    steps: Seq<RtcStepV>,
    accepted: Seq<Seq<u8>>,
    es: Seq<EventV>,
) -> bool {
    let signals = signals_heard(a, es, secret);
    b == heard_all(a, es) && steps == steps_of(signals) && accepted == offerers(signals)
}

/// The peers whose offers are among the signals.
pub open spec fn offerers(signals: Seq<(Seq<u8>, SignalV)>) -> Seq<Seq<u8>>
    decreases signals.len(),
{
    if signals.len() == 0 {
        Seq::empty()
    } else {
        let head = offerers(signals.drop_last());
        if signals.last().1 is Offer {
            head.push(signals.last().0)
        } else {
            head
        }
    }
}

pub open spec fn steps_view(v: Seq<RtcStep>) -> Seq<RtcStepV> {
    Seq::new(v.len(), |i: int| v[i]@)
}

pub open spec fn keys_view(v: Seq<PubKey>) -> Seq<Seq<u8>> {
    Seq::new(v.len(), |i: int| v[i]@)
}

/// What is to be fed to the peer connections for some signals, in their order, and the peers
/// whose offers were accepted.
pub fn deliver(signals: Vec<(PubKey, Signal)>) -> (r: (Vec<RtcStep>, Vec<PubKey>))
    ensures
        steps_view(r.0@) == steps_of(signals_view(signals@)),
        keys_view(r.1@) == offerers(signals_view(signals@)),
{
    let ghost all = signals_view(signals@);
    let mut steps: Vec<RtcStep> = Vec::new();
    let mut accepted: Vec<PubKey> = Vec::new();
    let mut i: usize = 0;
    proof {
        assert(keys_view(accepted@) =~= offerers(all.take(0)));
    }
    while i < signals.len()
        invariant
            i <= signals@.len(),
            all == signals_view(signals@),
            steps@.len() == i,
            forall|k: int| 0 <= k < i ==> (#[trigger] steps@[k])@ == step_of(signals@[k].0@, signals@[k].1@),
            keys_view(accepted@) == offerers(all.take(i as int)),
        decreases signals@.len() - i,
    {
        let ghost before = accepted@;
        proof {
            assert(all.take(i + 1).drop_last() =~= all.take(i as int));
            assert(all.take(i + 1).last() == (signals@[i as int].0@, signals@[i as int].1@));
        }
        let peer: String = hex_encode(signals[i].0.as_slice());
        match &signals[i].1 {
            Signal::Offer(sdp) => {
                steps.push(RtcStep::Offer { peer, sdp: sdp.clone() });
                accepted.push(signals[i].0);
                proof {
                    assert(keys_view(accepted@) =~= keys_view(before).push(signals@[i as int].0@));
                }
            },
            Signal::Answer(sdp) => {
                steps.push(RtcStep::Answer { peer, sdp: sdp.clone() });
            },
            Signal::Ice(candidate) => {
                steps.push(RtcStep::Ice { peer, candidate: candidate.clone() });
            },
        }
        i = i + 1;
    }
    proof {
        assert(all.take(i as int) =~= all);
        assert(steps_view(steps@) =~= steps_of(all));
    }
    (steps, accepted)
}

/// The text that `String::from_utf8_lossy` reads in some bytes.
pub uninterp spec fn lossy_of(bytes: Seq<u8>) -> Seq<char>;

/// `String::from_utf8_lossy` reads bytes as UTF-8 text and puts a replacement character where
/// they are none: a function of the bytes, and of well-formed ones their decoding.
#[verifier::external_body]
fn utf8_lossy(bytes: &[u8]) -> (r: String)
    ensures
        r@ == lossy_of(bytes@),
        valid_utf8(bytes@) ==> r@ == decode_utf8(bytes@),
{
    String::from_utf8_lossy(bytes).into_owned()
}

/// The signal of a kind: 0 offer, 1 answer, 2 ice.
pub open spec fn signal_of(kind: u8, body: Seq<char>) -> Option<SignalV> {
    if kind == 0 {
        Some(SignalV::Offer(body))
    } else if kind == 1 {
        Some(SignalV::Answer(body))
    } else if kind == 2 {
        Some(SignalV::Ice(body))
    } else {
        None
    }
}

/// The signal that a frame `conn(u32 le) | peer_pubkey(32) | kind(u8) | body…` asks to be sent,
/// given the text of its body.
pub open spec fn asked(frame: Seq<u8>, body: Seq<char>) -> Option<(Seq<u8>, SignalV)> {
    if frame.len() < 37 {
        None
    } else {
        match signal_of(frame[36], body) {
            Some(s) => Some((frame.subrange(4, 36), s)),
            None => None,
        }
    }
}

/// The signal of a kind.
pub fn typed_signal(kind: u8, body: String) -> (r: Option<Signal>)
    ensures
        match signal_of(kind, body@) {
            Some(s) => r is Some && r->0@ == s,
            None => r is None,
        },
{
    if kind == 0 {
        Some(Signal::Offer(body))
    } else if kind == 1 {
        Some(Signal::Answer(body))
    } else if kind == 2 {
        Some(Signal::Ice(body))
    } else {
        None
    }
}

/// The signal that a peer connection wants sent, and to whom.
pub fn outbound_signal(frame: &[u8]) -> (r: Option<(PubKey, Signal)>)
    ensures
        match asked(frame@, lossy_of(frame@.skip(37))) {
            Some(a) => r is Some && ((r->0).0@, (r->0).1@) == a,
            None => r is None,
        },
        frame@.len() >= 37 && valid_utf8(frame@.skip(37)) ==> match asked(frame@, decode_utf8(frame@.skip(37))) {
            Some(a) => r is Some && ((r->0).0@, (r->0).1@) == a,
            None => r is None,
        },
{
    if frame.len() < 37 {
        return None;
    }
    let peer: PubKey = key_of(vstd::slice::slice_subrange(frame, 4, 36));
    let tail: &[u8] = vstd::slice::slice_subrange(frame, 37, frame.len());
    proof {
        assert(tail@ =~= frame@.skip(37));
        assert(peer@ =~= frame@.subrange(4, 36));
    }
    match typed_signal(frame[36], utf8_lossy(tail)) {
        Some(sig) => Some((peer, sig)),
        None => None,
    }
}

/// Deliver inbound signals: what is to be fed to the peer connections, and the peers whose
/// offers were just accepted.
pub fn pump_inbound<C: RelayClient>(lobby: &mut Lobby<C>) -> (r: (Vec<RtcStep>, Vec<PubKey>))
    requires
        old(lobby).wf(),
    ensures
        final(lobby).wf(),
        final(lobby).same_words(old(lobby)),
        final(lobby).delivered().len() == old(lobby).delivered().len() + 1,
        final(lobby).delivered().drop_last() == old(lobby).delivered(),
        bridged(
            old(lobby).state(),
            final(lobby).state(),
            old(lobby).secret(),
            steps_view(r.0@),
            keys_view(r.1@),
            final(lobby).delivered().last(),
        ),
{
    let signals: Vec<(PubKey, Signal)> = lobby.poll();
    deliver(signals)
}

/// Publish a signal that a peer connection produced. A frame that asks for nothing sends
/// nothing.
pub fn pump_outbound<C: RelayClient>(lobby: &mut Lobby<C>, frame: &[u8], now: u64)
    ensures
        match asked(frame@, lossy_of(frame@.skip(37))) {
            Some((to, s)) => if encode_utf8(signal_text(s)).len() <= AEAD_MAX && shared_of(old(lobby).secret(), to) is Some {
                exists|nonce: Seq<u8>, r: Option<Event>| #[trigger]
                    signal_made(old(lobby).secret(), old(lobby).public(), to, now, s, nonce, r) && final(lobby).published()
                        == sent_with(old(lobby).published(), r)
            } else {
                final(lobby).published() == old(lobby).published()
            },
            None => final(lobby).published() == old(lobby).published(),
        },
        final(lobby).subscribed() == old(lobby).subscribed(),
        final(lobby).delivered() == old(lobby).delivered(),
        final(lobby).state() == old(lobby).state(),
        final(lobby).wf() == old(lobby).wf(),
        final(lobby).secret() == old(lobby).secret(),
        final(lobby).public() == old(lobby).public(),
        final(lobby).sound() == old(lobby).sound(),
{
    match outbound_signal(frame) {
        Some((to, sig)) => {
            if sig.fits() {
                lobby.send_signal(&to, &sig, now);
            }
        },
        None => {},
    }
}

/// Decode an x-only pubkey from its hex (for region dialing).
pub fn key_from_hex(s: &str) -> (r: Option<PubKey>)
    ensures
        r is Some <==> unhex32(s@) is Some,
        r matches Some(k) ==> unhex32(s@) == Some(k@),
{
    hex_decode32(s)
}

// ----------------------------------------------------------------------
// Laws
// ----------------------------------------------------------------------

/// A relay that passes an event on under any subscription id brings that event.
pub proof fn relayed_events_arrive(e: EventV, sub: Seq<char>)
    requires
        event_fits(e),
    ensures
        relay_event_in(encode_utf8("[\"EVENT\","@ + quoted(sub) + ","@ + event_json(e) + "]"@)) == Some(e),
{
    let text = "[\"EVENT\","@ + quoted(sub) + ","@ + event_json(e) + "]"@;
    let word = "EVENT"@;
    relayed_bytes(e, sub);
    relayed_items(e, sub);
    let b1 = relayed_body(e, sub);
    let whole = seq![OPEN_BRACKET] + b1;
    assert(whole.skip(1) =~= b1);
    string_reads_back(word, Seq::empty());
    assert(encode_utf8(quoted(word)) + Seq::<u8>::empty() =~= encode_utf8(quoted(word)));
    assert(b1[0] == 0x22);
    no_blank(whole);
    no_blank(b1);
    vstd::utf8::encode_utf8_valid_utf8(text);
}

/// What stands behind the opening bracket of a relayed event.
spec fn relayed_body(e: EventV, sub: Seq<char>) -> Seq<u8> {
    let b3 = encode_utf8(event_json(e)) + (seq![CLOSE_BRACKET] + Seq::<u8>::empty());
    let b2 = encode_utf8(quoted(sub)) + (seq![COMMA] + b3);
    encode_utf8(quoted("EVENT"@)) + (seq![COMMA] + b2)
}

proof fn relayed_items(e: EventV, sub: Seq<char>)
    requires
        event_fits(e),
    ensures
        take_items(relayed_body(e, sub), Seq::empty()) == Some(
            (seq![JsonV::Str("EVENT"@), JsonV::Str(sub), JsonV::Obj(event_entries(e))], Seq::<u8>::empty()),
        ),
        event_in(JsonV::Obj(event_entries(e))) == Some(e),
{
    reveal_strlit("EVENT");
    let ev = JsonV::Obj(event_entries(e));
    let word = "EVENT"@;
    let last = seq![CLOSE_BRACKET] + Seq::<u8>::empty();
    event_reads(e, last);
    let b3 = encode_utf8(event_json(e)) + last;
    let one = Seq::<JsonV>::empty().push(JsonV::Str(word));
    let two = one.push(JsonV::Str(sub));
    item_step(encode_utf8(event_json(e)), ev, CLOSE_BRACKET, Seq::empty(), two);
    string_reads_back(sub, seq![COMMA] + b3);
    let b2 = encode_utf8(quoted(sub)) + (seq![COMMA] + b3);
    item_step(encode_utf8(quoted(sub)), JsonV::Str(sub), COMMA, b3, one);
    string_reads_back(word, seq![COMMA] + b2);
    item_step(encode_utf8(quoted(word)), JsonV::Str(word), COMMA, b2, Seq::empty());
    assert(two.push(ev) =~= seq![JsonV::Str(word), JsonV::Str(sub), ev]);
}

proof fn relayed_bytes(e: EventV, sub: Seq<char>)
    ensures
        encode_utf8("[\"EVENT\","@ + quoted(sub) + ","@ + event_json(e) + "]"@) == seq![OPEN_BRACKET] + relayed_body(e, sub),
{
    reveal_strlit("[\"EVENT\",");
    reveal_strlit(",");
    reveal_strlit("]");
    quoted_word();
    let a = "[\"EVENT\","@;
    assert(a =~= seq!['['] + quoted("EVENT"@) + seq![',']);
    assert(","@ =~= seq![',']);
    assert("]"@ =~= seq![']']);
    let q = encode_utf8(quoted(sub));
    let j = encode_utf8(event_json(e));
    let w = encode_utf8(quoted("EVENT"@));
    utf8_concat(seq!['['] + quoted("EVENT"@), seq![',']);
    utf8_concat(seq!['['], quoted("EVENT"@));
    utf8_one('[');
    utf8_one(',');
    utf8_one(']');
    utf8_concat(a + quoted(sub) + ","@ + event_json(e), "]"@);
    utf8_concat(a + quoted(sub) + ","@, event_json(e));
    utf8_concat(a + quoted(sub), ","@);
    utf8_concat(a, quoted(sub));
    let head = seq![OPEN_BRACKET] + w + seq![COMMA];
    assert(seq![OPEN_BRACKET] + relayed_body(e, sub) =~= head + q + seq![COMMA] + j + seq![CLOSE_BRACKET]);
}

/// The word of an event message, quoted.
proof fn quoted_word()
    ensures
        quoted("EVENT"@) == seq!['"', 'E', 'V', 'E', 'N', 'T', '"'],
{
    reveal_strlit("EVENT");
    reveal_with_fuel(crate::json::escaped_all, 7);
    assert("EVENT"@ =~= seq!['E', 'V', 'E', 'N', 'T']);
    assert(quoted("EVENT"@) =~= seq!['"', 'E', 'V', 'E', 'N', 'T', '"']);
}

proof fn last_mark(a: Seq<char>, m: nat, b: Seq<char>, n: nat, c: char)
    requires
        c == '-' || c == 'x',
        a + seq![c] + dec(m) == b + seq![c] + dec(n),
    ensures
        a == b,
        m == n,
{
    dec_digits(m);
    dec_digits(n);
    let s = a + seq![c] + dec(m);
    let t = b + seq![c] + dec(n);
    let (la, lb) = (a.len() as int, b.len() as int);
    assert(s.len() == la + 1 + dec(m).len());
    assert(t.len() == lb + 1 + dec(n).len());
    if la < lb {
        let i = lb - la - 1;
        assert(t[lb] == c);
        assert(s[lb] == dec(m)[i]);
        assert(is_digit(ascii(dec(m))[i]));
    } else if lb < la {
        let i = la - lb - 1;
        assert(s[la] == c);
        assert(t[la] == dec(n)[i]);
        assert(is_digit(ascii(dec(n))[i]));
    }
    assert(a =~= s.take(a.len() as int));
    assert(b =~= t.take(b.len() as int));
    assert(dec(m) =~= s.skip(a.len() as int + 1));
    assert(dec(n) =~= t.skip(b.len() as int + 1));
    dec_reads_back(m);
    dec_reads_back(n);
}

proof fn dashes_tell_apart(a: Seq<u32>, b: Seq<u32>)
    requires
        dashed(a) == dashed(b),
    ensures
        a == b,
    decreases a.len() + b.len(),
{
    if a.len() > 0 && b.len() > 0 {
        last_mark(dashed(a.drop_last()), a.last() as nat, dashed(b.drop_last()), b.last() as nat, '-');
        dashes_tell_apart(a.drop_last(), b.drop_last());
        assert(a =~= a.drop_last().push(a.last()));
        assert(b =~= b.drop_last().push(b.last()));
    } else if a.len() > 0 {
        assert(dashed(a).len() > 0);
    } else if b.len() > 0 {
        assert(dashed(b).len() > 0);
    } else {
        assert(a =~= b);
    }
}

proof fn names_tell_apart(a: Seq<u32>, b: Seq<u32>)
    requires
        sub_name(a) == sub_name(b),
    ensures
        a == b,
{
    assert(dashed(a) =~= sub_name(a).skip("ivn"@.len() as int));
    assert(dashed(b) =~= sub_name(b).skip("ivn"@.len() as int));
    dashes_tell_apart(a, b);
}

proof fn dashes_hold_no_x(kinds: Seq<u32>)
    ensures
        forall|i: int| 0 <= i < dashed(kinds).len() ==> #[trigger] dashed(kinds)[i] != 'x',
    decreases kinds.len(),
{
    if kinds.len() > 0 {
        let h = dashed(kinds.drop_last());
        let n = kinds.last() as nat;
        dashes_hold_no_x(kinds.drop_last());
        dec_digits(n);
        assert forall|i: int| 0 <= i < dashed(kinds).len() implies #[trigger] dashed(kinds)[i] != 'x' by {
            if i < h.len() {
                assert(dashed(kinds)[i] == h[i]);
            } else if i > h.len() {
                assert(dashed(kinds)[i] == dec(n)[i - h.len() - 1]);
                assert(is_digit(ascii(dec(n))[i - h.len() - 1]));
            }
        }
    }
}

/// A plain name is no numbered one.
proof fn numbered_tell_apart(a: Seq<u32>, b: Seq<u32>, n: nat)
    ensures
        sub_name(a) != sub_name(b) + seq!['x'] + dec(n),
{
    reveal_strlit("ivn");
    dashes_hold_no_x(a);
    let s = sub_name(a);
    let t = sub_name(b) + seq!['x'] + dec(n);
    let k = sub_name(b).len() as int;
    assert((sub_name(b) + seq!['x'])[k] == 'x');
    assert(t[k] == 'x');
    if s == t {
        assert(3 <= k < t.len());
        assert("ivn"@.len() == 3);
        assert(s.len() == 3 + dashed(a).len());
        assert(s[k] == dashed(a)[k - 3]);
    }
}

proof fn place_bounds(asked: Seq<FilterV>, f: FilterV, i: int)
    requires
        0 <= i <= asked.len(),
    ensures
        i <= place_of(asked, f, i) <= asked.len(),
        place_of(asked, f, i) < asked.len() ==> asked[place_of(asked, f, i)] == f,
        forall|j: int| i <= j < place_of(asked, f, i) ==> #[trigger] asked[j] != f,
    decreases asked.len() - i,
{
    if i < asked.len() && asked[i] != f {
        place_bounds(asked, f, i + 1);
    }
}

/// Every filter has a subscription id of its own, so that none replaces another: of the filters that
/// a client asks for one after the other, those that are alike have one id, and any two that
/// differ have different ones.
pub proof fn subscriptions_stay_apart(fs: Seq<FilterV>, i: int, j: int)
    requires
        0 <= i < j < fs.len(),
    ensures
        sub_id(fs.take(i), fs[i]) == sub_id(fs.take(j), fs[j]) <==> fs[i] == fs[j],
{
    let (a, b) = (fs.take(i), fs.take(j));
    let n = place_of(a, fs[i], 0);
    let m = place_of(b, fs[j], 0);
    place_bounds(a, fs[i], 0);
    place_bounds(b, fs[j], 0);
    assert(fs[n] == fs[i]) by {
        if n < a.len() {
            assert(a[n] == fs[n]);
        }
    }
    assert(fs[m] == fs[j]) by {
        if m < b.len() {
            assert(b[m] == fs[m]);
        }
    }
    assert(shares(a, fs[i].kinds, n) == shares(fs, fs[i].kinds, n)) by {
        assert forall|k: int| 0 <= k < n implies a[k] == fs[k] by {}
        if shares(fs, fs[i].kinds, n) {
            let k = choose|k: int| 0 <= k < n && (#[trigger] fs[k]).kinds == fs[i].kinds;
            assert(a[k].kinds == fs[i].kinds);
        }
        if shares(a, fs[i].kinds, n) {
            let k = choose|k: int| 0 <= k < n && (#[trigger] a[k]).kinds == fs[i].kinds;
            assert(fs[k].kinds == fs[i].kinds);
        }
    }
    assert(shares(b, fs[j].kinds, m) == shares(fs, fs[j].kinds, m)) by {
        if shares(fs, fs[j].kinds, m) {
            let k = choose|k: int| 0 <= k < m && (#[trigger] fs[k]).kinds == fs[j].kinds;
            assert(b[k].kinds == fs[j].kinds);
        }
        if shares(b, fs[j].kinds, m) {
            let k = choose|k: int| 0 <= k < m && (#[trigger] b[k]).kinds == fs[j].kinds;
            assert(fs[k].kinds == fs[j].kinds);
        }
    }
    if fs[i] == fs[j] {
        if n < m {
            assert(b[n] == fs[n]);
        } else if m < n {
            assert(a[m] == fs[m]);
        }
    } else {
        let (ka, kb) = (fs[i].kinds, fs[j].kinds);
        let (sa, sb) = (shares(fs, ka, n), shares(fs, kb, m));
        if sa && sb {
            if sub_id(a, fs[i]) == sub_id(b, fs[j]) {
                last_mark(sub_name(ka), n as nat, sub_name(kb), m as nat, 'x');
            }
        } else if sa {
            numbered_tell_apart(kb, ka, n as nat);
        } else if sb {
            numbered_tell_apart(ka, kb, m as nat);
        } else if sub_name(ka) == sub_name(kb) {
            names_tell_apart(ka, kb);
            if n < m {
                assert(fs[n].kinds == kb);
            } else if m < n {
                assert(fs[m].kinds == ka);
            }
        }
    }
}

} // verus!
