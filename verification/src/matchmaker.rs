//! The matchmaker of a browser tab: one lobby for browsing, hosting and playing.
//!
//! Hosting and joining both use the same session and joiner as everywhere: WebRTC is just
//! another transport, Nostr just another way to find a peer.

use crate::beacon::{
    beacon_content, beacon_tags, code_region, host_room_code, room_code_of, room_code_region, Beacon, BeaconV,
};
use crate::crypto::{Identity, PubKey};
use crate::joiner::{Joiner, JoinerV};
use crate::lobby::{beacons_reach_their_watchers, beacons_view, listing, sent_with, Lobby, LobbyV};
use crate::nostr::{event_made, tagged, topic_of, Event, EventV, GLOBAL_TOPIC, KIND_BEACON};
use crate::nostr_laws::private_rooms_stay_private;
use crate::session::{first_seq, Session, World};
use crate::signaling::{beacon_filter, passes, signal_filter, RelayClient};
use crate::state::{self, ConnId};
use crate::text::text_of;
use crate::webrtc::{bridged, keys_view, pump_inbound, steps_view, RtcStep};
use vstd::prelude::*;

verus! {

/// How long a beacon stands before it is published again, in seconds. Public relays throttle
/// aggressive writers, and a slow beacon leaves headroom for the bursty signaling that a join
/// depends on.
pub const ADVERT_S: u64 = 8;

/// How far back beacons are asked for, in seconds: relays that wrongly persist our ephemeral
/// beacons would replay their entire backlog.
pub const BACKLOG_S: u64 = 120;

/// Is it time for the beacon again?
pub open spec fn advert_due(last: u64, now: u64) -> bool {
    now - last >= ADVERT_S
}

/// Owns the relay lobby. One per browser tab, shared across browsing, hosting and playing.
pub struct Matchmaker<C: RelayClient> {
    lobby: Lobby<C>,
    region: String,
    last_advert: u64,
    /// when true, our beacon is invite-only (no global topic): only peers who know our room
    /// code can find us
    private: bool,
}

/// What a matchmaker advertises.
#[verifier::ext_equal]
pub struct MatchmakerV {
    pub region: Seq<char>,
    pub last_advert: u64,
    pub private: bool,
}

impl<C: RelayClient> View for Matchmaker<C> {
    type V = MatchmakerV;

    closed spec fn view(&self) -> MatchmakerV {
        MatchmakerV { region: self.region@, last_advert: self.last_advert, private: self.private }
    }
}

impl<C: RelayClient> Matchmaker<C> {
    /// The lobby.
    pub closed spec fn inner(&self) -> Lobby<C> {
        self.lobby
    }

    /// Start listening for region beacons and signals addressed to us. Every region's beacons
    /// are asked for, not just our own: otherwise the world map could only ever see the sector
    /// we host. We advertise a beacon for `region` alone.
    pub fn new(relay: C, identity: Identity, region: &str, now: u64) -> (m: Matchmaker<C>)
        ensures
            m@ == (MatchmakerV { region: region@, last_advert: 0, private: false }),
            m.inner().wf(),
            m.inner().secret() == identity.secret(),
            m.inner().public() == identity.public(),
            m.inner().sound() == identity.wf(),
            m.inner().published() == relay.published(),
            m.inner().delivered() == relay.delivered(),
            m.inner().subscribed() == relay.subscribed().push(beacon_filter(seq![GLOBAL_TOPIC@], Some(backlog(now)))).push(
                signal_filter(identity.public(), Some(backlog(now))),
            ),
            m.inner().state() == (LobbyV { seen: Map::empty(), recent: Seq::empty() }),
    {
        let since: u64 = if now >= BACKLOG_S { now - BACKLOG_S } else { 0 };
        let none: Vec<String> = Vec::new();
        proof {
            assert(crate::json::texts(none@).len() == 0);
        }
        let lobby = Lobby::new(relay, identity, none.as_slice(), Some(since));
        Matchmaker { lobby, region: text_of(region), last_advert: 0, private: false }
    }

    /// Our stable, shareable room code (derived from our identity key). Hand it to a friend;
    /// they type it to find an invite-only colony we host.
    pub fn room_code(&self) -> (r: String)
        ensures
            r@ == room_code_of(self.inner().public()),
    {
        host_room_code(&self.my_key())
    }

    /// Switch hosting to invite-only: beacon on the code-derived private region (no global
    /// topic), so only peers who enter our room code discover us.
    pub fn go_private(&mut self)
        ensures
            final(self)@ == (MatchmakerV {
                region: code_region(room_code_of(old(self).inner().public())),
                last_advert: 0,
                private: true,
            }),
            final(self).inner() == old(self).inner(),
    {
        let code: String = self.room_code();
        self.region = room_code_region(code.as_str());
        self.private = true;
        self.last_advert = 0;  // beacon promptly under the new topic
    }

    /// Joiner: start listening for the invite-only host behind `code`. After this, that host's
    /// beacon shows up in `regions()`, and you dial it like any other.
    pub fn watch_code(&mut self, code: &str)
        ensures
            final(self)@ == old(self)@,
            final(self).inner().subscribed() == old(self).inner().subscribed().push(
                beacon_filter(seq![topic_of(code_region(code@))], None),
            ),
            final(self).inner().published() == old(self).inner().published(),
            final(self).inner().delivered() == old(self).inner().delivered(),
            final(self).inner().state() == old(self).inner().state(),
            final(self).inner().wf() == old(self).inner().wf(),
            final(self).inner().secret() == old(self).inner().secret(),
            final(self).inner().public() == old(self).inner().public(),
            final(self).inner().sound() == old(self).inner().sound(),
    {
        let region: String = room_code_region(code);
        self.lobby.watch_region(region.as_str());
    }

    pub fn my_key(&self) -> (k: PubKey)
        ensures
            k@ == self.inner().public(),
    {
        self.lobby.my_key()
    }

    /// The lobby, for whoever moves its events and signals.
    pub fn lobby_mut(&mut self) -> (r: &mut Lobby<C>)
        ensures
            *r == old(self).inner(),
            final(self).inner() == *final(r),
            final(self)@ == old(self)@,
    {
        &mut self.lobby
    }

    /// Drive inbound signaling for one frame: what is to be fed to the peer connections, and
    /// whose offers were accepted.
    pub fn pump(&mut self) -> (r: (Vec<RtcStep>, Vec<PubKey>))
        requires
            old(self).inner().wf(),
        ensures
            final(self)@ == old(self)@,
            final(self).inner().wf(),
            final(self).inner().same_words(&old(self).inner()),
            final(self).inner().delivered().len() == old(self).inner().delivered().len() + 1,
            final(self).inner().delivered().drop_last() == old(self).inner().delivered(),
            bridged(
                old(self).inner().state(),
                final(self).inner().state(),
                old(self).inner().secret(),
                steps_view(r.0@),
                keys_view(r.1@),
                final(self).inner().delivered().last(),
            ),
    {
        pump_inbound(&mut self.lobby)
    }

    /// Host only: re-publish our region beacon every few seconds, including who currently
    /// controls the region (paints the world map). Nothing goes out before the time has come.
    pub fn advertise(&mut self, now: u64, tick: u32, players: u32, genesis: u64, controller: PubKey, controller_name: &str)
        ensures
            !advert_due(old(self)@.last_advert, now) ==> final(self)@ == old(self)@ && final(self).inner().published() == old(
                self,
            ).inner().published(),
            advert_due(old(self)@.last_advert, now) ==> {
                let b = BeaconV {
                    region: old(self)@.region,
                    host: old(self).inner().public(),
                    tick,
                    players,
                    genesis,
                    controller: controller@,
                    controller_name: controller_name@,
                    private: old(self)@.private,
                };
                final(self)@ == (MatchmakerV { last_advert: now, ..old(self)@ }) && exists|r: Option<Event>| #[trigger]
                    event_made(
                        old(self).inner().secret(),
                        old(self).inner().public(),
                        now,
                        KIND_BEACON,
                        beacon_tags(b),
                        beacon_content(b),
                        r,
                    ) && final(self).inner().published() == sent_with(old(self).inner().published(), r)
            },
            final(self).inner().subscribed() == old(self).inner().subscribed(),
            final(self).inner().delivered() == old(self).inner().delivered(),
            final(self).inner().state() == old(self).inner().state(),
            final(self).inner().wf() == old(self).inner().wf(),
            final(self).inner().secret() == old(self).inner().secret(),
            final(self).inner().public() == old(self).inner().public(),
            final(self).inner().sound() == old(self).inner().sound(),
    {
        if now < self.last_advert || now - self.last_advert < ADVERT_S {
            return;
        }
        self.last_advert = now;
        let beacon = Beacon {
            region: self.region.clone(),
            host: self.my_key(),
            tick,
            players,
            genesis,
            controller,
            controller_name: text_of(controller_name),
            private: self.private,
        };
        self.lobby.advertise(&beacon, now);
    }

    /// Live regions discovered so far (the highest tick first).
    pub fn regions(&self) -> (r: Vec<Beacon>)
        requires
            self.inner().wf(),
        ensures
            listing(self.inner().state().seen, beacons_view(r@)),
    {
        self.lobby.regions()
    }
}

/// Where the backlog begins.
pub open spec fn backlog(now: u64) -> u64 {
    if now >= BACKLOG_S {
        (now - BACKLOG_S) as u64
    } else {
        0
    }
}

/// Host a fresh or loaded world over WebRTC, at the millisecond `ms`. The session behaves exactly
/// like a native host: joiners dial it by pubkey instead of IP.
pub fn host(world: World, identity: Identity, name: &str, color: u8, bots: &[String], ms: u64) -> (s: Session)
    ensures
        s@ == state::hosting(
            world@,
            identity.secret(),
            identity.public(),
            name@,
            color,
            crate::session::views(bots@),
            state::first_seq(ms),
            "hosting"@,
        ),
{
    Session::host_at(world, identity, name, color, bots, first_seq(ms))
}

/// Start joining the region whose host pubkey is `host_key`, over the link that was dialed to
/// it, at the millisecond `ms`. The host's Welcome is pinned to `host_key`, so a relay can't
/// substitute an impostor.
pub fn join(
    dialed: Option<ConnId>,
    host_key: &PubKey,
    identity: Identity,
    name: &str,
    color: u8,
    ms: u64,
) -> (r: Option<Joiner>)
    ensures
        r is Some <==> dialed is Some,
        r matches Some(j) ==> j@ == (JoinerV {
            host_conn: dialed->0,
            secret: identity.secret(),
            key: identity.public(),
            seq: state::first_seq(ms),
            name: name@,
            color,
            hello_sent: false,
            expect_host: Some(host_key@),
        }),
{
    match Joiner::new_at(dialed, identity, name, color, first_seq(ms)) {
        Some(mut joiner) => {
            joiner.expect_host_key(*host_key);
            Some(joiner)
        },
        None => None,
    }
}

// ----------------------------------------------------------------------
// Laws
// ----------------------------------------------------------------------

/// A host that went private is found by those who watch its room code, and by nobody who only
/// browses.
pub proof fn room_code_rendezvous(e: EventV, b: BeaconV, host: Seq<u8>)
    requires
        e.kind == KIND_BEACON,
        e.tags == beacon_tags(b),
        b.private,
        b.region == code_region(room_code_of(host)),
    ensures
        passes(beacon_filter(seq![topic_of(code_region(room_code_of(host)))], None), e),
        forall|since: Option<u64>| !#[trigger] passes(beacon_filter(seq![GLOBAL_TOPIC@], since), e),
{
    beacons_reach_their_watchers(e, b);
    private_rooms_stay_private(b);
    assert forall|since: Option<u64>| !#[trigger] passes(beacon_filter(seq![GLOBAL_TOPIC@], since), e) by {
        let f = beacon_filter(seq![GLOBAL_TOPIC@], since);
        if passes(f, e) {
            let i = choose|i: int| 0 <= i < f.topics.len() && tagged(e.tags, "t"@, #[trigger] f.topics[i]);
            assert(f.topics[i] == GLOBAL_TOPIC@);
        }
    }
}

/// Two adverts in a row are at least `ADVERT_S` seconds apart.
pub proof fn adverts_are_spaced(first: MatchmakerV, now: u64, later: u64)
    requires
        advert_due(first.last_advert, now),
        advert_due((MatchmakerV { last_advert: now, ..first }).last_advert, later),
    ensures
        later >= now + ADVERT_S,
{
}

} // verus!
