//! How players find each other: what is signed, what a lobby learns from what it hears, who is listed, and
//! whose welcome a joiner takes.

use crate::beacon::{beacon_content, beacon_tags, normal_code, room_code_of, BeaconV, ROOM_ALPHABET};
use crate::crypto::{sha256_of, signature_valid, tagged_of};
use crate::joiner::{join_step, JoinStepV, JoinerV};
use crate::lobby::{heard, heard_all, listing, signal_heard, signals_heard, topics_of, LobbyV};
use crate::matchmaker::{advert_due, backlog};
use crate::nostr::{
    event_id, event_valid, tag_value, tagged, topic_of, EventV, GLOBAL_TOPIC, KIND_BEACON, KIND_SIGNAL,
};
use crate::nostr_laws::beacon_reads_back;
use crate::protocol::{
    digest_of, envelope_reads_back, envelope_valid, msg_fits, msg_reads_back, put_envelope, put_msg,
    EnvelopeV, MsgV, MSG_TAG,
};
use crate::rendezvous::{code_typed_all, first_awaited, listed};
use crate::ser::{le, le_reads_back, le_value, pow256_values};
use crate::session::WelcomeV;
use crate::signal::{signal_in, signal_tags, SignalV};
use crate::signaling::{beacon_filter, passes, passes_any, passing, signal_filter, FilterV};
use crate::text::hex;
use crate::transport::TransportEv;
use crate::webrtc::{asked, offerers, relay_event_in, relay_events_in, steps_of, RtcStepV};
use vstd::prelude::*;

verus! {

// ----------------------------------------------------------------------
// What is signed
// ----------------------------------------------------------------------

/// An envelope is valid exactly if its sender signed a digest of a text that holds the sender, the number
/// and the payload, each in full: under one signature none of them can be exchanged.
pub proof fn signatures_cover_the_envelope(e: EnvelopeV)
    requires
        e.sender.len() == 32,
    ensures
        exists|x: Seq<u8>|
            x.len() == 40 + e.payload.len() && x.take(32) == e.sender && le_value(x.subrange(32, 40)) == e.seq && x.skip(40)
                == e.payload && digest_of(e.sender, e.seq, e.payload) == #[trigger] tagged_of(MSG_TAG@, x),
        envelope_valid(e) <==> signature_valid(e.sender, digest_of(e.sender, e.seq, e.payload), e.sig),
{
    let x = e.sender + le(e.seq as nat, 8) + e.payload;
    pow256_values();
    le_reads_back(e.seq as nat, 8);
    assert(x.take(32) =~= e.sender);
    assert(x.subrange(32, 40) =~= le(e.seq as nat, 8));
    assert(x.skip(40) =~= e.payload);
    assert(digest_of(e.sender, e.seq, e.payload) == tagged_of(MSG_TAG@, x));
}

/// An event is valid exactly if its id is that of its contents and its author signed the id.
pub proof fn authors_sign_their_events(e: EventV)
    ensures
        event_valid(e) <==> event_id(e) == e.id && signature_valid(e.pubkey, e.id, e.sig),
{
}

// ----------------------------------------------------------------------
// The lobby
// ----------------------------------------------------------------------

/// A beacon of its author that was not heard before is kept under its region and host, unless a fresher one
/// is kept there; nothing else that was kept changes.
pub proof fn beacons_are_kept(l: LobbyV, e: EventV, b: BeaconV)
    requires
        !l.recent.contains(e.id),
        event_valid(e),
        e.kind == KIND_BEACON,
        e.pubkey == b.host,
        e.tags == beacon_tags(b),
        e.content == beacon_content(b),
        b.controller.len() == 32,
    ensures
        ({
            let l1 = heard(l, e);
            let k = (b.region, b.host);
            &&& l1.seen.contains_key(k)
            &&& !l.seen.contains_key(k) || l.seen[k].tick <= b.tick ==> l1.seen[k] == b
            &&& l.seen.contains_key(k) && l.seen[k].tick > b.tick ==> l1.seen[k] == l.seen[k]
            &&& forall|o: (Seq<char>, Seq<u8>)|
                o != k ==> (#[trigger] l1.seen.contains_key(o) <==> l.seen.contains_key(o)) && (l.seen.contains_key(o)
                    ==> l1.seen[o] == l.seen[o])
        }),
{
    beacon_reads_back(b, e);
}

/// What is no beacon, what its author did not sign and what was heard before leaves what is kept as it is.
pub proof fn other_events_change_no_beacon(l: LobbyV, e: EventV)
    requires
        e.kind != 29001 || !event_valid(e) || l.recent.contains(e.id),
    ensures
        heard(l, e).seen == l.seen,
{
}

/// Every event that is new is remembered as the newest, and of 4096 the oldest is forgotten for it; one that
/// was heard before changes nothing.
pub proof fn events_are_remembered(l: LobbyV, e: EventV)
    ensures
        l.recent.contains(e.id) ==> heard(l, e) == l,
        !l.recent.contains(e.id) ==> heard(l, e).recent.last() == e.id && heard(l, e).recent.len() > 0,
        !l.recent.contains(e.id) && l.recent.len() < 4096 ==> heard(l, e).recent == l.recent.push(e.id),
        !l.recent.contains(e.id) && l.recent.len() == 4096 ==> heard(l, e).recent == l.recent.drop_first().push(e.id),
{
    assert(l.recent.len() == 4096 ==> l.recent.push(e.id).drop_first() =~= l.recent.drop_first().push(e.id));
}

/// A signal is given out, with its author, the first time a signed event brings one that we can read.
pub proof fn signals_are_given_out(l: LobbyV, e: EventV, secret: Seq<u8>)
    ensures
        !l.recent.contains(e.id) && event_valid(e) && signal_in(e, secret) is Some ==> signal_heard(l, e, secret) == Some(
            (e.pubkey, signal_in(e, secret)->0),
        ),
        l.recent.contains(e.id) || !event_valid(e) || signal_in(e, secret) is None ==> signal_heard(l, e, secret) is None,
        e.kind != 29000 ==> signal_in(e, secret) is None,
{
}

/// Events count one after the other, however they are bundled: what comes first is heard first, and the
/// signals come out in the order of their events.
pub proof fn bundles_do_not_matter(l: LobbyV, a: Seq<EventV>, b: Seq<EventV>, e: EventV, secret: Seq<u8>)
    ensures
        heard_all(l, a + b) == heard_all(heard_all(l, a), b),
        signals_heard(l, a + b, secret) == signals_heard(l, a, secret) + signals_heard(heard_all(l, a), b, secret),
        heard_all(l, Seq::empty()) == l && signals_heard(l, Seq::empty(), secret).len() == 0,
        heard_all(l, seq![e]) == heard(l, e),
        signals_heard(l, seq![e], secret) == (match signal_heard(l, e, secret) {
            Some(s) => seq![s],
            None => Seq::empty(),
        }),
    decreases b.len(),
{
    assert(seq![e].drop_last() =~= Seq::empty());
    assert(heard_all(l, seq![e].drop_last()) == l);
    assert(signals_heard(l, seq![e].drop_last(), secret) =~= Seq::empty());
    assert(signals_heard(l, seq![e], secret) =~= (match signal_heard(l, e, secret) {
        Some(s) => seq![s],
        None => Seq::empty(),
    }));
    if b.len() == 0 {
        assert(a + b =~= a);
        assert(signals_heard(l, a, secret) + signals_heard(heard_all(l, a), b, secret) =~= signals_heard(l, a, secret));
    } else {
        bundles_do_not_matter(l, a, b.drop_last(), e, secret);
        assert((a + b).drop_last() =~= a + b.drop_last());
        assert(signals_heard(l, a + b, secret) =~= signals_heard(l, a, secret) + signals_heard(heard_all(l, a), b, secret));
    }
}

/// The list of live regions holds every beacon that is kept, none twice and nothing else, the freshest first.
pub proof fn the_freshest_come_first(seen: Map<(Seq<char>, Seq<u8>), BeaconV>, s: Seq<BeaconV>, i: int, j: int)
    requires
        listing(seen, s),
        0 <= i < j < s.len(),
    ensures
        s[i].tick >= s[j].tick,
        seen.contains_key((s[i].region, s[i].host)) && seen[(s[i].region, s[i].host)] == s[i],
        forall|k: (Seq<char>, Seq<u8>)| #[trigger] seen.contains_key(k) ==> s.contains(seen[k]),
        s[i] != s[j],
{
    if s[i] == s[j] {
        irreflexive(encode(s[i].region));
        irreflexive(s[i].host);
    }
}

spec fn encode(s: Seq<char>) -> Seq<u8> {
    vstd::utf8::encode_utf8(s)
}

proof fn irreflexive(a: Seq<u8>)
    ensures
        !crate::lobby::lex_before(a, a),
    decreases a.len(),
{
    if a.len() > 0 {
        irreflexive(a.drop_first());
    }
}

// ----------------------------------------------------------------------
// Filters
// ----------------------------------------------------------------------

/// Does the event carry a tag of the name with the value?
pub open spec fn carries(e: EventV, name: Seq<char>, value: Seq<char>) -> bool {
    exists|i: int| 0 <= i < e.tags.len() && (#[trigger] e.tags[i]).len() >= 2 && e.tags[i][0] == name && e.tags[i][1] == value
}

proof fn tags_carry(e: EventV, name: Seq<char>, value: Seq<char>)
    ensures
        tagged(e.tags, name, value) == carries(e, name, value),
{
    if tagged(e.tags, name, value) {
        let i = choose|i: int| 0 <= i < e.tags.len() && crate::nostr::is_tag(#[trigger] e.tags[i], name, value);
        assert(e.tags[i].len() >= 2);
    }
    if carries(e, name, value) {
        let i = choose|i: int|
            0 <= i < e.tags.len() && (#[trigger] e.tags[i]).len() >= 2 && e.tags[i][0] == name && e.tags[i][1] == value;
        assert(crate::nostr::is_tag(e.tags[i], name, value));
    }
}

/// A filter lets an event through exactly if the event is of one of its kinds, not before its time, under one
/// of its topics and for one of its recipients; what it does not name it does not ask for.
pub proof fn filters_ask_for_what_they_name(f: FilterV, e: EventV)
    ensures
        passes(f, e) <==> {
            &&& f.kinds.len() == 0 || exists|i: int| 0 <= i < f.kinds.len() && #[trigger] f.kinds[i] == e.kind
            &&& f.since is None || f.since->0 <= e.created_at
            &&& f.topics.len() == 0 || exists|i: int| 0 <= i < f.topics.len() && carries(e, "t"@, #[trigger] f.topics[i])
            &&& f.recipients.len() == 0 || exists|i: int|
                0 <= i < f.recipients.len() && carries(e, "p"@, #[trigger] f.recipients[i])
        },
{
    assert forall|i: int| 0 <= i < f.topics.len() implies tagged(e.tags, "t"@, #[trigger] f.topics[i]) == carries(
        e,
        "t"@,
        f.topics[i],
    ) by {
        tags_carry(e, "t"@, f.topics[i]);
    }
    assert forall|i: int| 0 <= i < f.recipients.len() implies tagged(e.tags, "p"@, #[trigger] f.recipients[i]) == carries(
        e,
        "p"@,
        f.recipients[i],
    ) by {
        tags_carry(e, "p"@, f.recipients[i]);
    }
    if passes(f, e) {
        if f.topics.len() > 0 {
            let i = choose|i: int| 0 <= i < f.topics.len() && tagged(e.tags, "t"@, #[trigger] f.topics[i]);
            assert(carries(e, "t"@, f.topics[i]));
        }
        if f.recipients.len() > 0 {
            let i = choose|i: int| 0 <= i < f.recipients.len() && tagged(e.tags, "p"@, #[trigger] f.recipients[i]);
            assert(carries(e, "p"@, f.recipients[i]));
        }
    }
}

/// A relay gives out exactly the events that one of the filters lets through, in their order.
pub proof fn relays_give_out_what_passes(fs: Seq<FilterV>, a: Seq<EventV>, b: Seq<EventV>, e: EventV)
    ensures
        passing(fs, a + b) == passing(fs, a) + passing(fs, b),
        passing(fs, seq![e]) == (if exists|i: int| 0 <= i < fs.len() && passes(#[trigger] fs[i], e) {
            seq![e]
        } else {
            Seq::empty()
        }),
    decreases b.len(),
{
    assert(seq![e].drop_last() =~= Seq::empty());
    assert(passing(fs, seq![e].drop_last()) =~= Seq::empty());
    assert(passing(fs, seq![e]) =~= (if passes_any(fs, e) {
        seq![e]
    } else {
        Seq::empty()
    }));
    if b.len() == 0 {
        assert(a + b =~= a);
        assert(passing(fs, a) + passing(fs, b) =~= passing(fs, a));
    } else {
        relays_give_out_what_passes(fs, a, b.drop_last(), e);
        assert((a + b).drop_last() =~= a + b.drop_last());
        assert(passing(fs, a + b) =~= passing(fs, a) + passing(fs, b));
    }
}

/// Who browses hears of every public colony, whatever its region, that was told of since they ask; who asks
/// for a region hears of the colonies of that region.
pub proof fn browsers_hear_of_public_colonies(b: BeaconV, e: EventV, since: Option<u64>, region: Seq<char>)
    requires
        e.kind == KIND_BEACON,
        e.tags == beacon_tags(b),
        since is None || since->0 <= e.created_at,
    ensures
        !b.private ==> passes(beacon_filter(topics_of(Seq::empty()), since), e),
        passes(beacon_filter(topics_of(seq![b.region]), since), e),
{
    crate::nostr_laws::private_rooms_stay_private(b);
    let f = beacon_filter(topics_of(Seq::empty()), since);
    assert(f.kinds[0] == e.kind);
    assert(f.kinds.contains(e.kind));
    assert(f.topics[0] == GLOBAL_TOPIC@);
    let g = beacon_filter(topics_of(seq![b.region]), since);
    assert(g.kinds[0] == e.kind);
    assert(g.kinds.contains(e.kind));
    assert(g.topics[0] == topic_of(b.region));
}

/// A signal reaches whom it is for: its event passes the filter of its recipient, and its recipient is named
/// first. Signals for others, and anything that is no signal, do not pass.
pub proof fn signals_reach_their_recipient(e: EventV, to: Seq<u8>, other: Seq<u8>, since: Option<u64>)
    requires
        e.tags == signal_tags(to),
        since is None || since->0 <= e.created_at,
    ensures
        e.kind == KIND_SIGNAL ==> passes(signal_filter(to, since), e),
        e.kind != KIND_SIGNAL ==> !passes(signal_filter(to, since), e),
        hex(other) != hex(to) ==> !passes(signal_filter(other, since), e),
        tag_value(e.tags, "p"@) == Some(hex(to)),
{
    let f = signal_filter(to, since);
    assert(f.kinds[0] == KIND_SIGNAL);
    assert(e.tags[0] =~= seq!["p"@, hex(to)]);
    assert(carries(e, "p"@, hex(to)));
    tags_carry(e, "p"@, hex(to));
    assert(f.recipients[0] == hex(to));
    assert(tagged(e.tags, "p"@, f.recipients[0]));
    let g = signal_filter(other, since);
    tags_carry(e, "p"@, hex(other));
    if hex(other) != hex(to) && passes(g, e) {
        let i = choose|i: int| 0 <= i < g.recipients.len() && tagged(e.tags, "p"@, #[trigger] g.recipients[i]);
        assert(g.recipients[i] == hex(other));
    }
}

// ----------------------------------------------------------------------
// Waiting for a host
// ----------------------------------------------------------------------

/// Is the colony somebody else's, with a host?
pub open spec fn is_other(b: BeaconV, me: Seq<u8>) -> bool {
    b.host != me && b.host != Seq::new(32, |i: int| 0u8)
}

proof fn zero_key()
    ensures
        crate::crypto::ZERO_KEY@ == Seq::new(32, |i: int| 0u8),
{
    assert(crate::crypto::ZERO_KEY@ =~= Seq::new(32, |i: int| 0u8));
}

/// The host that is dialled is the first in the list that is in the awaited region and is not us; without one
/// nobody is dialled.
pub proof fn the_awaited_host_is_found(bs: Seq<BeaconV>, region: Seq<char>, me: Seq<u8>, k: int)
    requires
        0 <= k <= bs.len(),
        k < bs.len() ==> bs[k].region == region && is_other(bs[k], me),
        forall|j: int| 0 <= j < k ==> (#[trigger] bs[j]).region != region || !is_other(bs[j], me),
    ensures
        k < bs.len() ==> first_awaited(bs, region, me) == Some(bs[k].host),
        k == bs.len() ==> first_awaited(bs, region, me) is None,
    decreases bs.len(),
{
    zero_key();
    if bs.len() > 0 && k > 0 {
        let rest = bs.drop_first();
        assert(bs[0].region != region || !is_other(bs[0], me));
        assert forall|j: int| 0 <= j < k - 1 implies (#[trigger] rest[j]).region != region || !is_other(rest[j], me) by {
            assert(rest[j] == bs[j + 1]);
        }
        the_awaited_host_is_found(rest, region, me, k - 1);
    }
}

/// Can the colony be shown: is it public, and somebody else's?
pub open spec fn can_show(bs: Seq<BeaconV>, x: nat, me: Seq<u8>) -> bool {
    !bs[x as int].private && is_other(bs[x as int], me)
}

/// Is its host shown, in its place or before it?
pub open spec fn shown_by(bs: Seq<BeaconV>, rows: Seq<nat>, x: nat) -> bool {
    exists|y: nat| #[trigger] rows.contains(y) && y <= x && bs[y as int].host == bs[x as int].host
}

proof fn listing_rows(bs: Seq<BeaconV>, n: nat, me: Seq<u8>)
    requires
        n <= bs.len(),
    ensures
        ({
            let rows = listed(bs, n, me);
            &&& forall|i: int, j: int| 0 <= i < j < rows.len() ==> (#[trigger] rows[i]) < (#[trigger] rows[j])
            &&& forall|x: nat| #[trigger] rows.contains(x) ==> x < n && can_show(bs, x, me)
            &&& forall|x: nat| x < n && #[trigger] can_show(bs, x, me) ==> shown_by(bs, rows, x)
        }),
    decreases n,
{
    zero_key();
    if n > 0 {
        let m = (n - 1) as nat;
        listing_rows(bs, m, me);
        let head = listed(bs, m, me);
        let rows = listed(bs, n, me);
        let b = bs[n - 1];
        assert forall|i: int, j: int| 0 <= i < j < rows.len() implies (#[trigger] rows[i]) < (#[trigger] rows[j]) by {
            if j == head.len() {
                assert(head.contains(head[i]));
            }
        }
        assert forall|x: nat| #[trigger] rows.contains(x) implies x < n && can_show(bs, x, me) by {
            let i = choose|i: int| 0 <= i < rows.len() && rows[i] == x;
            if i < head.len() {
                assert(head[i] == x);
                assert(head.contains(x));
            }
        }
        assert forall|x: nat| x < n && #[trigger] can_show(bs, x, me) implies shown_by(bs, rows, x) by {
            if x < m {
                assert(shown_by(bs, head, x));
                let y = choose|y: nat| #[trigger] head.contains(y) && y <= x && bs[x as int].host == bs[y as int].host;
                let i = choose|i: int| 0 <= i < head.len() && head[i] == y;
                assert(rows[i] == y);
                assert(rows.contains(y));
            } else if crate::rendezvous::host_listed(bs, head, b.host) {
                let i = choose|i: int| 0 <= i < head.len() && bs[(#[trigger] head[i]) as int].host == b.host;
                assert(rows[i] == head[i]);
                assert(rows.contains(head[i]));
                assert(head.contains(head[i]));
            } else {
                assert(rows[rows.len() - 1] == x);
                assert(rows.contains(x));
            }
        }
    }
}

/// The list shows public colonies of others, in the order of the regions, and every host of one: a colony that
/// is not shown has a host who is shown before it.
pub proof fn every_public_host_is_listed(bs: Seq<BeaconV>, me: Seq<u8>, x: nat)
    requires
        x < bs.len(),
    ensures
        ({
            let rows = listed(bs, bs.len(), me);
            &&& rows.contains(x) ==> can_show(bs, x, me)
            &&& can_show(bs, x, me) ==> shown_by(bs, rows, x)
            &&& forall|i: int, j: int| 0 <= i < j < rows.len() ==> (#[trigger] rows[i]) < (#[trigger] rows[j])
        }),
{
    listing_rows(bs, bs.len(), me);
}

/// A typed room code is the first eight letters and digits of what was typed, in upper case.
pub proof fn codes_are_what_was_typed(cs: Seq<char>)
    ensures
        ({
            let all = normal_code(cs);
            code_typed_all(Seq::empty(), cs) == (if all.len() < 8 {
                all
            } else {
                all.take(8)
            })
        }),
    decreases cs.len(),
{
    let all = normal_code(cs);
    if cs.len() > 0 {
        let head = normal_code(cs.drop_last());
        codes_are_what_was_typed(cs.drop_last());
        if head.len() < 8 {
            if all.len() == 8 {
                assert(all.take(8) =~= all);
            }
        } else {
            assert(all.take(8) =~= head.take(8));
        }
    }
}

/// A beacon is told again eight seconds after it was told, and not before; beacons are asked for from two
/// minutes back.
pub proof fn beacons_are_told_every_eight_seconds(last: u64, now: u64)
    ensures
        advert_due(last, now) <==> now >= last + 8,
        now >= 120 ==> backlog(now) == now - 120,
        now < 120 ==> backlog(now) == 0,
{
}

// ----------------------------------------------------------------------
// Joining
// ----------------------------------------------------------------------

/// What the host says on its link is heard, and only if it signed it: with a Welcome the joiner takes all that
/// it says, under the key that signed it; a denial ends the wait. A joiner who knows the host's key takes
/// nothing from another key.
pub proof fn joiners_hear_their_host(j: JoinerV, ev: TransportEv, conn: u64, bytes: Seq<u8>, sender: Seq<u8>, seq: u64, m: MsgV, sig: Seq<
    u8,
>)
    requires
        ev matches TransportEv::Data { conn: c, bytes: b } && c == conn && b@ == bytes,
        sender.len() == 32,
        sig.len() == 64,
        msg_fits(m),
        put_msg(m).len() < 0x1_0000_0000,
        bytes == put_envelope(EnvelopeV { sender, seq, payload: put_msg(m), sig }),
    ensures
        ({
            let step = join_step(j, ev);
            let signed = envelope_valid(EnvelopeV { sender, seq, payload: put_msg(m), sig });
            let right = j.expect_host is None || j.expect_host == Some(sender);
            &&& conn != j.host_conn || !signed ==> step is Waiting
            &&& conn == j.host_conn && signed && !right ==> step is Failed
            &&& conn == j.host_conn && signed && right ==> match m {
                MsgV::Welcome { pid, start_tick, peers, snapshot } => step == (JoinStepV::Welcomed {
                    welcome: WelcomeV { host_key: sender, host_seq: seq, pid, start_tick, peers, snapshot },
                }),
                MsgV::Deny { reason } => step == (JoinStepV::Failed { reason: "denied: "@ + reason }),
                _ => step is Waiting,
            }
        }),
{
    let e = EnvelopeV { sender, seq, payload: put_msg(m), sig };
    envelope_reads_back(e, Seq::empty());
    assert(put_envelope(e) + Seq::<u8>::empty() =~= put_envelope(e));
    msg_reads_back(m, Seq::empty());
}

/// A joiner whose link to the host is lost gives up; other links coming and going do not matter.
pub proof fn joiners_need_their_link(j: JoinerV, ev: TransportEv)
    ensures
        ev matches TransportEv::Closed { conn } ==> (conn == j.host_conn ==> join_step(j, ev) is Failed) && (conn
            != j.host_conn ==> join_step(j, ev) is Waiting),
        ev is Connected ==> join_step(j, ev) is Waiting,
{
}

// ----------------------------------------------------------------------
// Peer connections
// ----------------------------------------------------------------------

/// Every signal is fed to the connection of the peer who sent it, as what it is and with what it says, in the
/// order in which the signals came; the peers who offered are the ones accepted.
pub proof fn signals_feed_their_peer(signals: Seq<(Seq<u8>, SignalV)>, i: int)
    requires
        0 <= i < signals.len(),
    ensures
        steps_of(signals).len() == signals.len(),
        match signals[i].1 {
            SignalV::Offer(sdp) => steps_of(signals)[i] == (RtcStepV::Offer { peer: hex(signals[i].0), sdp }) && offerers(
                signals,
            ).contains(signals[i].0),
            SignalV::Answer(sdp) => steps_of(signals)[i] == (RtcStepV::Answer { peer: hex(signals[i].0), sdp }),
            SignalV::Ice(candidate) => steps_of(signals)[i] == (RtcStepV::Ice { peer: hex(signals[i].0), candidate }),
        },
        forall|k: int| 0 <= k < offerers(signals).len() ==> offered_by(signals, #[trigger] offerers(signals)[k]),
{
    offering(signals);
    if signals[i].1 is Offer {
        assert(offerers(signals).contains(signals[i].0));
    }
}

/// Is there an offer of the peer among the signals?
pub open spec fn offered_by(signals: Seq<(Seq<u8>, SignalV)>, peer: Seq<u8>) -> bool {
    exists|j: int| 0 <= j < signals.len() && (#[trigger] signals[j]).1 is Offer && signals[j].0 == peer
}

proof fn offering(signals: Seq<(Seq<u8>, SignalV)>)
    ensures
        forall|i: int|
            0 <= i < signals.len() && (#[trigger] signals[i]).1 is Offer ==> offerers(signals).contains(signals[i].0),
        forall|k: int| 0 <= k < offerers(signals).len() ==> offered_by(signals, #[trigger] offerers(signals)[k]),
    decreases signals.len(),
{
    if signals.len() > 0 {
        let rest = signals.drop_last();
        offering(rest);
        let a = offerers(rest);
        let b = offerers(signals);
        assert forall|i: int| 0 <= i < signals.len() && (#[trigger] signals[i]).1 is Offer implies b.contains(signals[i].0) by {
            if i < rest.len() {
                assert(rest[i] == signals[i]);
                assert(a.contains(rest[i].0));
                let k = choose|k: int| 0 <= k < a.len() && a[k] == rest[i].0;
                assert(b[k] == signals[i].0);
            } else {
                assert(b[b.len() - 1] == signals[i].0);
            }
        }
        assert forall|k: int| 0 <= k < b.len() implies offered_by(signals, #[trigger] b[k]) by {
            if k < a.len() {
                assert(b[k] == a[k]);
                assert(offered_by(rest, a[k]));
                let j = choose|j: int| 0 <= j < rest.len() && (#[trigger] rest[j]).1 is Offer && rest[j].0 == a[k];
                assert(signals[j] == rest[j]);
            } else {
                assert(signals[signals.len() - 1].1 is Offer);
            }
        }
    }
}

/// What a peer connection asks to be sent goes to the peer that it names: the kind behind the key says what it
/// is, and what is too short or of another kind asks for nothing.
pub proof fn connections_say_what_to_send(conn: Seq<u8>, peer: Seq<u8>, kind: u8, rest: Seq<u8>, body: Seq<char>)
    requires
        conn.len() == 4,
        peer.len() == 32,
    ensures
        ({
            let frame = conn + peer + seq![kind] + rest;
            &&& kind == 0 ==> asked(frame, body) == Some((peer, SignalV::Offer(body)))
            &&& kind == 1 ==> asked(frame, body) == Some((peer, SignalV::Answer(body)))
            &&& kind == 2 ==> asked(frame, body) == Some((peer, SignalV::Ice(body)))
            &&& kind > 2 ==> asked(frame, body) is None
            &&& asked(conn + peer, body) is None
        }),
{
    let frame = conn + peer + seq![kind] + rest;
    assert(frame[36] == kind);
    assert(frame.subrange(4, 36) =~= peer);
}

/// The events of a relay's messages come out in the order of the messages, each message that brings one
/// bringing just that.
pub proof fn messages_bring_their_events(a: Seq<Seq<u8>>, b: Seq<Seq<u8>>, f: Seq<u8>)
    ensures
        relay_events_in(a + b) == relay_events_in(a) + relay_events_in(b),
        relay_events_in(seq![f]) == (match relay_event_in(f) {
            Some(e) => seq![e],
            None => Seq::empty(),
        }),
    decreases b.len(),
{
    assert(seq![f].drop_last() =~= Seq::empty());
    assert(relay_events_in(seq![f].drop_last()) =~= Seq::empty());
    assert(relay_events_in(seq![f]) =~= (match relay_event_in(f) {
        Some(e) => seq![e],
        None => Seq::empty(),
    }));
    if b.len() == 0 {
        assert(a + b =~= a);
        assert(relay_events_in(a) + relay_events_in(b) =~= relay_events_in(a));
    } else {
        messages_bring_their_events(a, b.drop_last(), f);
        assert((a + b).drop_last() =~= a + b.drop_last());
        assert(relay_events_in(a + b) =~= relay_events_in(a) + relay_events_in(b));
    }
}

// ----------------------------------------------------------------------
// Room codes
// ----------------------------------------------------------------------

proof fn symbols_ascend(a: int, b: int)
    requires
        0 <= a < b < 32,
    ensures
        (ROOM_ALPHABET@[a] as u32) < (ROOM_ALPHABET@[b] as u32),
    decreases b - a,
{
    reveal_strlit("0123456789ABCDEFGHJKMNPQRSTVWXYZ");
    let s = ROOM_ALPHABET@;
    assert(s.len() == 32);
    assert(s[0] == '0' && s[1] == '1' && s[2] == '2' && s[3] == '3' && s[4] == '4' && s[5] == '5' && s[6] == '6' && s[7] == '7');
    assert(s[8] == '8' && s[9] == '9' && s[10] == 'A' && s[11] == 'B' && s[12] == 'C' && s[13] == 'D' && s[14] == 'E' && s[15]
        == 'F');
    assert(s[16] == 'G' && s[17] == 'H' && s[18] == 'J' && s[19] == 'K' && s[20] == 'M' && s[21] == 'N' && s[22] == 'P' && s[23]
        == 'Q');
    assert(s[24] == 'R' && s[25] == 'S' && s[26] == 'T' && s[27] == 'V' && s[28] == 'W' && s[29] == 'X' && s[30] == 'Y' && s[31]
        == 'Z');
    if b > a + 1 {
        symbols_ascend(a, b - 1);
    }
    assert((s[b - 1] as u32) < (s[b] as u32));
}

proof fn symbols_differ(a: int, b: int)
    requires
        0 <= a < 32,
        0 <= b < 32,
        ROOM_ALPHABET@[a] == ROOM_ALPHABET@[b],
    ensures
        a == b,
{
    if a < b {
        symbols_ascend(a, b);
    } else if b < a {
        symbols_ascend(b, a);
    }
}

proof fn groups_differ(n: nat, m: nat)
    requires
        crate::beacon::base32(n, 4) == crate::beacon::base32(m, 4),
    ensures
        n % 0x10_0000 == m % 0x10_0000,
{
    reveal_with_fuel(crate::beacon::base32, 5);
    let a = crate::beacon::base32(n, 4);
    let b = crate::beacon::base32(m, 4);
    let (n1, n2, n3) = (n / 32, n / 32 / 32, n / 32 / 32 / 32);
    let (m1, m2, m3) = (m / 32, m / 32 / 32, m / 32 / 32 / 32);
    let p3 = crate::beacon::base32(n3, 1);
    let p2 = crate::beacon::base32(n2, 2);
    let p1 = crate::beacon::base32(n1, 3);
    let q3 = crate::beacon::base32(m3, 1);
    let q2 = crate::beacon::base32(m2, 2);
    let q1 = crate::beacon::base32(m1, 3);
    assert(a == p1.push(ROOM_ALPHABET@[(n % 32) as int]) && p1 == p2.push(ROOM_ALPHABET@[(n1 % 32) as int]) && p2 == p3.push(
        ROOM_ALPHABET@[(n2 % 32) as int],
    ));
    assert(b == q1.push(ROOM_ALPHABET@[(m % 32) as int]) && q1 == q2.push(ROOM_ALPHABET@[(m1 % 32) as int]) && q2 == q3.push(
        ROOM_ALPHABET@[(m2 % 32) as int],
    ));
    assert(p3.len() == 1 && q3.len() == 1);
    assert(a[3] == ROOM_ALPHABET@[(n % 32) as int] && b[3] == ROOM_ALPHABET@[(m % 32) as int]);
    assert(a[2] == ROOM_ALPHABET@[(n1 % 32) as int] && b[2] == ROOM_ALPHABET@[(m1 % 32) as int]);
    assert(a[1] == ROOM_ALPHABET@[(n2 % 32) as int] && b[1] == ROOM_ALPHABET@[(m2 % 32) as int]);
    assert(a[0] == ROOM_ALPHABET@[(n3 % 32) as int] && b[0] == ROOM_ALPHABET@[(m3 % 32) as int]);
    symbols_differ((n % 32) as int, (m % 32) as int);
    symbols_differ((n1 % 32) as int, (m1 % 32) as int);
    symbols_differ((n2 % 32) as int, (m2 % 32) as int);
    symbols_differ((n3 % 32) as int, (m3 % 32) as int);
    assert(n % 0x10_0000 == (n3 % 32) * 32768 + (n2 % 32) * 1024 + (n1 % 32) * 32 + n % 32);
    assert(m % 0x10_0000 == (m3 % 32) * 32768 + (m2 % 32) * 1024 + (m1 % 32) * 32 + m % 32);
}

proof fn five_bytes(b: Seq<u8>)
    requires
        b.len() == 5,
    ensures
        crate::beacon::be_value(b) == b[0] * 0x1_0000_0000 + b[1] * 0x100_0000 + b[2] * 0x1_0000 + b[3] * 0x100 + b[4],
{
    reveal_with_fuel(crate::beacon::be_value, 6);
    let c = b.drop_last();
    let d = c.drop_last();
    let e = d.drop_last();
    let f = e.drop_last();
    assert(c.last() == b[3] && d.last() == b[2] && e.last() == b[1] && f.last() == b[0]);
    assert(f.drop_last().len() == 0);
    assert(crate::beacon::be_value(f) == b[0]);
    assert(crate::beacon::be_value(e) == b[0] * 256 + b[1]);
    assert(crate::beacon::be_value(d) == (b[0] * 256 + b[1]) * 256 + b[2]);
    assert(crate::beacon::be_value(c) == ((b[0] * 256 + b[1]) * 256 + b[2]) * 256 + b[3]);
}

proof fn forty_bits(n: nat, m: nat)
    requires
        n < 0x100_0000_0000,
        m < 0x100_0000_0000,
        n % 0x10_0000 == m % 0x10_0000,
        (n / 0x10_0000) % 0x10_0000 == (m / 0x10_0000) % 0x10_0000,
    ensures
        n == m,
{
}

proof fn bytes_differ(x: Seq<u8>, y: Seq<u8>)
    requires
        x.len() == y.len(),
        crate::beacon::be_value(x) == crate::beacon::be_value(y),
    ensures
        x == y,
    decreases x.len(),
{
    if x.len() > 0 {
        bytes_differ(x.drop_last(), y.drop_last());
        assert(x =~= x.drop_last().push(x.last()));
        assert(y =~= y.drop_last().push(y.last()));
    } else {
        assert(x =~= y);
    }
}

proof fn group_len(n: nat, w: nat)
    ensures
        crate::beacon::base32(n, w).len() == w,
    decreases w,
{
    if w > 0 {
        group_len(n / 32, (w - 1) as nat);
    }
}

proof fn codes_differ(n: nat, m: nat)
    requires
        n < 0x100_0000_0000,
        m < 0x100_0000_0000,
        crate::beacon::base32(n / 0x10_0000, 4) + seq!['-'] + crate::beacon::base32(n, 4) == crate::beacon::base32(
            m / 0x10_0000,
            4,
        ) + seq!['-'] + crate::beacon::base32(m, 4),
    ensures
        n == m,
{
    let (a, b) = (crate::beacon::base32(n / 0x10_0000, 4), crate::beacon::base32(n, 4));
    let (c, d) = (crate::beacon::base32(m / 0x10_0000, 4), crate::beacon::base32(m, 4));
    group_len(n / 0x10_0000, 4);
    group_len(n, 4);
    group_len(m / 0x10_0000, 4);
    group_len(m, 4);
    let s = a + seq!['-'] + b;
    let t = c + seq!['-'] + d;
    assert(s.take(4) =~= a);
    assert(t.take(4) =~= c);
    assert(s.skip(5) =~= b);
    assert(t.skip(5) =~= d);
    groups_differ(n / 0x10_0000, m / 0x10_0000);
    groups_differ(n, m);
    forty_bits(n, m);
}

/// A room code stands for forty bits of a digest of the key, all of them: two keys have one code exactly if those
/// bits are the same.
pub proof fn room_codes_tell_hosts_apart(a: Seq<u8>, b: Seq<u8>)
    ensures
        room_digest(a).len() == 32 && room_digest(b).len() == 32 ==> (room_code_of(a) == room_code_of(b) <==> room_digest(a).take(
            5,
        ) == room_digest(b).take(5)),
{
    if room_digest(a).len() == 32 && room_digest(b).len() == 32 {
        let x = room_digest(a).take(5);
        let y = room_digest(b).take(5);
        if room_code_of(a) == room_code_of(b) {
            five_bytes(x);
            five_bytes(y);
            codes_differ(crate::beacon::be_value(x), crate::beacon::be_value(y));
            bytes_differ(x, y);
        }
    }
}

/// The digest that a key's room code is taken from.
pub open spec fn room_digest(pk: Seq<u8>) -> Seq<u8> {
    sha256_of(vstd::utf8::encode_utf8("ironvein-roomcode-v1"@) + pk)
}

proof fn hex_pairs_differ(a: u8, b: u8)
    requires
        crate::beacon::upper_hex_digit(a as int / 16) == crate::beacon::upper_hex_digit(b as int / 16),
        crate::beacon::upper_hex_digit(a as int % 16) == crate::beacon::upper_hex_digit(b as int % 16),
    ensures
        a == b,
{
}

proof fn hex_differs(x: Seq<u8>, y: Seq<u8>)
    requires
        x.len() == y.len(),
        crate::beacon::upper_hex(x) == crate::beacon::upper_hex(y),
    ensures
        x == y,
    decreases x.len(),
{
    if x.len() > 0 {
        let (s, t) = (crate::beacon::upper_hex(x), crate::beacon::upper_hex(y));
        let (p, q) = (crate::beacon::upper_hex(x.drop_last()), crate::beacon::upper_hex(y.drop_last()));
        let n = p.len() as int;
        assert(s.len() == n + 2 && t.len() == q.len() + 2);
        assert(s.take(n) =~= p && t.take(n) =~= q);
        assert(s[n] == t[n] && s[n + 1] == t[n + 1]);
        hex_pairs_differ(x.last(), y.last());
        hex_differs(x.drop_last(), y.drop_last());
        assert(x =~= x.drop_last().push(x.last()));
        assert(y =~= y.drop_last().push(y.last()));
    } else {
        assert(x =~= y);
    }
}

/// The digest that the private region behind a code is taken from: that of the code's letters and digits, in upper
/// case.
pub open spec fn region_digest(code: Seq<char>) -> Seq<u8> {
    sha256_of(vstd::utf8::encode_utf8("ironvein-room-v1"@) + vstd::utf8::encode_utf8(normal_code(code)))
}

/// A private region stands for forty bits of the digest of its code, all of them: two codes lead to one region
/// exactly if those bits are the same.
pub proof fn private_regions_tell_codes_apart(a: Seq<char>, b: Seq<char>)
    ensures
        region_digest(a).len() == 32 && region_digest(b).len() == 32 ==> (crate::beacon::code_region(a)
            == crate::beacon::code_region(b) <==> region_digest(a).take(5) == region_digest(b).take(5)),
{
    let (x, y) = (region_digest(a).take(5), region_digest(b).take(5));
    if region_digest(a).len() == 32 && region_digest(b).len() == 32 && crate::beacon::code_region(a)
        == crate::beacon::code_region(b) {
        let k = "RM"@.len() as int;
        assert(crate::beacon::code_region(a).skip(k) =~= crate::beacon::upper_hex(x));
        assert(crate::beacon::code_region(b).skip(k) =~= crate::beacon::upper_hex(y));
        hex_differs(x, y);
    }
}

} // verus!
