//! Events, beacons, signals, relays and the lobby.

use ironvein::beacon::{host_room_code, room_code_region, Beacon};
use ironvein::crypto::{hex_encode, Identity, ZERO_KEY};
use ironvein::json::{member, parse, write_string, write_tags, Json};
use ironvein::lobby::Lobby;
use ironvein::matchmaker::{join, Matchmaker};
use ironvein::nostr::{region_topic, Event, GLOBAL_TOPIC, KIND_BEACON, KIND_SIGNAL};
use ironvein::signal::Signal;
use ironvein::signaling::{Filter, MockHub, MockRelay, RelayClient};
use ironvein::transport::TransportEv;
use ironvein::webrtc::{
    key_from_hex, mesh_event, outbound_signal, publish_frame, pump_inbound, pump_outbound, relay_event, subscribe_frame, RtcStep,
    WasmRelay, WebRtcMesh,
};

fn someone() -> Identity {
    Identity::generate().expect("a fresh identity")
}

fn same_event(a: &Event, b: &Event) -> bool {
    a.id == b.id
        && a.pubkey == b.pubkey
        && a.created_at == b.created_at
        && a.kind == b.kind
        && a.tags == b.tags
        && a.content == b.content
        && a.sig == b.sig
}

fn same_beacon(a: &Beacon, b: &Beacon) -> bool {
    a.region == b.region
        && a.host == b.host
        && a.tick == b.tick
        && a.players == b.players
        && a.genesis == b.genesis
        && a.controller == b.controller
        && a.controller_name == b.controller_name
        && a.private == b.private
}

fn is_offer(s: &Signal, text: &str) -> bool {
    matches!(s, Signal::Offer(t) if t == text)
}

fn is_answer(s: &Signal, text: &str) -> bool {
    matches!(s, Signal::Answer(t) if t == text)
}

#[test]
fn event_signs_and_verifies_and_roundtrips_json() {
    let id = someone();
    let ev = Event::create(&id, 1_700_000_000, KIND_BEACON, vec![vec!["t".into(), "ironvein-region-A1".into()]], "hello".into())
        .unwrap();
    assert!(ev.verify());
    assert_eq!(ev.tag("t"), Some("ironvein-region-A1"));

    let j = parse(&ev.to_json()).unwrap();
    let back = Event::from_json(&j).unwrap();
    assert!(same_event(&back, &ev));
    assert!(back.verify());

    // a flipped content byte breaks the id/sig
    let mut tampered = ev.dup();
    tampered.content = "h3llo".into();
    assert!(!tampered.verify());
}

#[test]
fn beacon_roundtrip() {
    let id = someone();
    let b = Beacon {
        region: "B2".into(),
        host: id.pk,
        tick: 4242,
        players: 3,
        genesis: 0xDEADBEEFCAFE,
        controller: id.pk,
        controller_name: "Ada".into(),
        private: false,
    };
    let ev = b.to_event(&id, 1_700_000_001).unwrap();
    assert!(ev.verify());
    assert_eq!(ev.tag("t"), Some("ironvein-region-B2"));
    let back = Beacon::from_event(&ev).unwrap();
    assert!(same_beacon(&back, &b));
}

#[test]
fn room_code_rendezvous() {
    let id = someone();
    // a host's code is stable (derived from identity) and well-formed
    let code = host_room_code(&id.pk);
    assert_eq!(code.len(), 9); // XXXX-XXXX
    assert_eq!(&code[4..5], "-");
    assert_eq!(host_room_code(&id.pk), code, "code must be stable");

    // host and joiner derive the same private region from the same code,
    // regardless of how the joiner typed it (case / spacing / punctuation)
    let region = room_code_region(&code);
    let messy = format!("  {}  ", code.to_lowercase().replace('-', " "));
    assert_eq!(room_code_region(&messy), region);
    // a different code lands in a different room
    assert_ne!(room_code_region("AAAA-AAAA"), region);

    // a private beacon carries ONLY its region topic — never the global one,
    // so it can't be vacuumed up by the public lobby scan.
    let pb = Beacon {
        region: region.clone(),
        host: id.pk,
        tick: 1,
        players: 1,
        genesis: 0,
        controller: id.pk,
        controller_name: "Ada".into(),
        private: true,
    };
    let ev = pb.to_event(&id, 1_700_000_003).unwrap();
    assert!(ev.verify());
    assert!(ev.has_tag("t", &region_topic(&region)));
    assert!(!ev.has_tag("t", GLOBAL_TOPIC), "private beacon must omit the global topic");
    assert!(Beacon::from_event(&ev).unwrap().private, "private flag must survive the round-trip");
}

#[test]
fn signal_is_encrypted_and_addressed() {
    let alice = someone();
    let bob = someone();
    let sig = Signal::Offer("v=0 ... sdp offer".into());
    let ev = sig.to_event(&alice, &bob.pk, 1_700_000_002).unwrap();
    assert!(ev.verify());
    // routed to bob
    assert_eq!(ev.tag("p"), Some(hex_encode(&bob.pk)).as_deref());
    // the SDP is not in the clear
    assert!(!ev.content.contains("sdp offer"));
    // bob recovers it; eve cannot
    let (from, got) = Signal::from_event(&ev, &bob).unwrap();
    assert_eq!(from, alice.pk);
    assert!(is_offer(&got, "v=0 ... sdp offer"));
    let eve = someone();
    assert!(Signal::from_event(&ev, &eve).is_none());
}

#[test]
fn json_parses_relay_array_frames() {
    let v = parse(r#"["EVENT","sub1",{"kind":29001,"tags":[["t","x"]]}]"#).unwrap();
    let arr = v.as_arr().unwrap();
    assert_eq!(arr[0].as_str(), Some("EVENT"));
    assert_eq!(arr[1].as_str(), Some("sub1"));
    assert_eq!(member(arr[2].as_obj().unwrap(), "kind").unwrap().as_u64(), Some(29001));
}

#[test]
fn json_reads_what_it_should_and_no_more() {
    assert!(matches!(parse(" null "), Some(Json::Null)));
    assert!(matches!(parse("true"), Some(Json::Bool(true))));
    assert!(matches!(parse("false"), Some(Json::Bool(false))));
    assert_eq!(parse("[]").unwrap().as_arr().unwrap().len(), 0);
    assert_eq!(parse("{}").unwrap().as_obj().unwrap().len(), 0);
    assert!(parse("").is_none());
    assert!(parse("[1,").is_none());
    assert!(parse("[1 2]").is_none());
    assert!(parse("{\"a\" 1}").is_none());
    assert!(parse("\"open").is_none());
    assert!(parse("tru").is_none());
    assert!(parse("-").is_none());
    assert_eq!(parse("\"a\\u0041\\n\\\\\"").unwrap().as_str(), Some("aA\n\\"));
    // a lone surrogate stands for no character
    assert_eq!(parse("\"\\ud800\"").unwrap().as_str(), Some("\u{fffd}"));
    // of two members with one name the last counts
    let twice = parse("{\"k\":1,\"k\":2}").unwrap();
    assert_eq!(member(twice.as_obj().unwrap(), "k").unwrap().as_u64(), Some(2));
}

#[test]
fn json_numbers_round_and_truncate_as_doubles_do() {
    let n = |s: &str| parse(s).unwrap().as_u64().unwrap();
    assert_eq!(n("0"), 0);
    assert_eq!(n("29001"), 29001);
    assert_eq!(n("1.9"), 1);
    assert_eq!(n("-3"), 0);
    assert_eq!(n("12e2"), 1200);
    assert_eq!(n("1e-1"), 0);
    // beyond 53 bits a double has gaps
    assert_eq!(n("9007199254740993"), 9007199254740992);
    assert_eq!(n("9007199254740995"), 9007199254740996);
    // and beyond 64 bits the cast saturates
    assert_eq!(n("1e30"), u64::MAX);
}

#[test]
fn strings_are_escaped_as_the_protocol_demands() {
    let mut s = String::new();
    write_string(&mut s, "a\"b\\c\n\r\t\u{8}\u{c}\u{1}é");
    assert_eq!(s, "\"a\\\"b\\\\c\\n\\r\\t\\b\\f\\u0001é\"");
    let mut t = String::new();
    write_tags(&mut t, &vec![vec!["t".into(), "x".into()], vec![]]);
    assert_eq!(t, "[[\"t\",\"x\"],[]]");
}

#[test]
fn malformed_events_are_refused() {
    let id = someone();
    let ev = Event::create(&id, 7, KIND_SIGNAL, vec![], "c".into()).unwrap();
    let good = ev.to_json();
    assert!(Event::from_json(&parse(&good).unwrap()).is_some());
    let short = good.replace("\"sig\":\"", "\"sig\":\"00");
    assert!(Event::from_json(&parse(&short).unwrap()).is_none());
    let renamed = good.replace("\"kind\"", "\"kin\"");
    assert!(Event::from_json(&parse(&renamed).unwrap()).is_none());
    assert!(Event::from_json(&parse("[]").unwrap()).is_none());
    // a beacon needs the beacon's kind
    assert!(Beacon::from_event(&ev).is_none());
    assert!(Signal::from_event(&ev, &id).is_none());
}

#[test]
fn event_ids_follow_the_protocol() {
    let mut three = [0u8; 32];
    three[31] = 3;
    let id = Identity::from_secret(&three).unwrap();
    let ev = Event::create(&id, 1, 2, vec![vec!["t".into(), "x".into()]], "hi".into()).unwrap();
    let text = format!("[0,\"{}\",1,2,[[\"t\",\"x\"]],\"hi\"]", hex_encode(&id.pk));
    assert_eq!(ev.id, ironvein::crypto::sha256(&[text.as_bytes()]));
}

#[test]
fn older_beacons_have_no_controller() {
    let id = someone();
    let content = "{\"region\":\"C3\",\"tick\":9,\"players\":1,\"genesis\":\"00000000000000ff\"}";
    let ev = Event::create(&id, 5, KIND_BEACON, vec![vec!["t".into(), GLOBAL_TOPIC.into()]], content.into()).unwrap();
    let b = Beacon::from_event(&ev).unwrap();
    assert_eq!(b.controller, ZERO_KEY);
    assert_eq!(b.controller_name, "");
    assert_eq!(b.genesis, 255);
    assert!(!b.private);
}

#[test]
fn filters_say_what_they_mention() {
    let id = someone();
    let ev = Event::create(&id, 100, KIND_BEACON, vec![vec!["t".into(), "a".into()], vec!["p".into(), "q".into()]], "".into())
        .unwrap();
    let f = |kinds: Vec<u32>, topics: Vec<&str>, recipients: Vec<&str>, since: Option<u64>| Filter {
        kinds,
        topics: topics.into_iter().map(|s| s.to_string()).collect(),
        recipients: recipients.into_iter().map(|s| s.to_string()).collect(),
        since,
    };
    assert!(f(vec![], vec![], vec![], None).matches(&ev));
    assert!(f(vec![1, KIND_BEACON], vec!["z", "a"], vec!["q"], Some(100)).matches(&ev));
    assert!(!f(vec![KIND_SIGNAL], vec![], vec![], None).matches(&ev));
    assert!(!f(vec![], vec!["z"], vec![], None).matches(&ev));
    assert!(!f(vec![], vec![], vec!["a"], None).matches(&ev));
    assert!(!f(vec![], vec![], vec![], Some(101)).matches(&ev));

    assert_eq!(f(vec![], vec![], vec![], None).to_json(), "{}");
    assert_eq!(f(vec![1, 2], vec![], vec![], Some(3)).to_json(), "{\"kinds\":[1,2],\"since\":3}");
    assert_eq!(
        f(vec![29001], vec!["a", "b"], vec!["c"], None).to_json(),
        "{\"kinds\":[29001],\"#t\":[\"a\",\"b\"],\"#p\":[\"c\"]}"
    );
}

fn open(hub: &MockHub, id: &Identity) -> Lobby<MockRelay> {
    Lobby::new(MockRelay::new(hub), id.dup(), &[], None)
}

fn signals(lobby: &mut Lobby<MockRelay>, hub: &mut MockHub) -> Vec<([u8; 32], Signal)> {
    lobby.relay_mut().sync(hub);
    lobby.poll()
}

#[test]
fn discovery_and_signaling_over_a_shared_relay() {
    let mut hub = MockHub::new();
    let host = someone();
    let joiner = someone();

    let mut host_lobby = open(&hub, &host);
    let mut join_lobby = open(&hub, &joiner);

    // host advertises region A1
    let beacon = Beacon {
        region: "A1".into(),
        host: host.pk,
        tick: 1200,
        players: 2,
        genesis: 0xABCD,
        controller: host.pk,
        controller_name: "keeper".into(),
        private: false,
    };
    host_lobby.advertise(&beacon, 1_700_000_000);
    host_lobby.relay_mut().sync(&mut hub);

    // joiner discovers it
    let _ = signals(&mut join_lobby, &mut hub);
    let regions = join_lobby.regions();
    assert_eq!(regions.len(), 1);
    assert_eq!(regions[0].region, "A1");
    assert_eq!(regions[0].host, host.pk);

    // joiner sends an encrypted offer to the host's key
    join_lobby.send_signal(&host.pk, &Signal::Offer("SDP-OFFER".into()), 1_700_000_001);
    join_lobby.relay_mut().sync(&mut hub);
    let got = signals(&mut host_lobby, &mut hub);
    assert_eq!(got.len(), 1);
    assert_eq!(got[0].0, joiner.pk);
    assert!(is_offer(&got[0].1, "SDP-OFFER"));

    // host answers; joiner receives
    host_lobby.send_signal(&joiner.pk, &Signal::Answer("SDP-ANSWER".into()), 1_700_000_002);
    host_lobby.relay_mut().sync(&mut hub);
    let ans = signals(&mut join_lobby, &mut hub);
    assert!(ans.iter().any(|(_, s)| is_answer(s, "SDP-ANSWER")), "joiner should receive the answer");
}

#[test]
fn other_peoples_signals_are_not_delivered() {
    let mut hub = MockHub::new();
    let a = someone();
    let b = someone();
    let eve = someone();

    let mut a_lobby = open(&hub, &a);
    let mut eve_lobby = open(&hub, &eve);

    // a signals b — eve is subscribed but the event is tagged for b
    a_lobby.send_signal(&b.pk, &Signal::Ice("candidate".into()), 1_700_000_000);
    a_lobby.relay_mut().sync(&mut hub);
    assert_eq!(hub.len(), 1);
    assert_eq!(hub.event(0).unwrap().kind, KIND_SIGNAL);
    assert!(signals(&mut eve_lobby, &mut hub).is_empty(), "eve must not receive a signal addressed to b");
}

fn beacon_of(id: &Identity, region: &str, tick: u32) -> Beacon {
    Beacon {
        region: region.into(),
        host: id.pk,
        tick,
        players: 1,
        genesis: 0,
        controller: ZERO_KEY,
        controller_name: "".into(),
        private: false,
    }
}

#[test]
fn an_event_counts_once_and_forgeries_do_not() {
    let hub = MockHub::new();
    let host = someone();
    let mut lobby = open(&hub, &someone());
    let ev = beacon_of(&host, "A1", 10).to_event(&host, 1).unwrap();
    let mut forged = ev.dup();
    forged.content = forged.content.replace("A1", "Z9");
    assert!(lobby.hear(&forged).is_none());
    assert_eq!(lobby.regions().len(), 0);
    // the id was remembered, so the genuine event of that id no longer counts
    lobby.hear_all(&vec![ev.dup()]);
    assert_eq!(lobby.regions().len(), 0);
    let fresh = beacon_of(&host, "A1", 11).to_event(&host, 2).unwrap();
    lobby.hear_all(&vec![fresh.dup(), fresh]);
    assert_eq!(lobby.regions().len(), 1);
}

#[test]
fn signals_are_handed_out_once() {
    let hub = MockHub::new();
    let (a, b) = (someone(), someone());
    let mut lobby = open(&hub, &b);
    let ev = Signal::Ice("c".into()).to_event(&a, &b.pk, 3).unwrap();
    let got = lobby.hear_all(&vec![ev.dup(), ev]);
    assert_eq!(got.len(), 1);
    assert!(matches!(&got[0].1, Signal::Ice(c) if c == "c"));
}

#[test]
fn regions_are_listed_by_tick_and_then_by_key() {
    let hub = MockHub::new();
    let host = someone();
    let mut lobby = open(&hub, &someone());
    let mut evs = Vec::new();
    for (r, t) in [("B", 5), ("A", 5), ("C", 9), ("AA", 5)] {
        evs.push(beacon_of(&host, r, t).to_event(&host, 1).unwrap());
    }
    lobby.hear_all(&evs);
    let names: Vec<String> = lobby.regions().into_iter().map(|b| b.region).collect();
    assert_eq!(names, vec!["C", "A", "AA", "B"]);
    // the latest by tick is kept, whenever it was published
    let stale = beacon_of(&host, "C", 2).to_event(&host, 1_700_000_000).unwrap();
    lobby.hear(&stale);
    assert_eq!(lobby.regions()[0].tick, 9);
    let fresh = beacon_of(&host, "B", 6).to_event(&host, 0).unwrap();
    lobby.hear(&fresh);
    assert_eq!(lobby.regions().iter().find(|b| b.region == "B").unwrap().tick, 6);
}

#[test]
fn private_hosts_are_found_by_their_code_alone() {
    let mut hub = MockHub::new();
    let host = someone();
    let mut m = Matchmaker::new(MockRelay::new(&hub), host.dup(), "A1", 1_000);
    m.go_private();
    m.advertise(1_000, 7, 1, 0, ZERO_KEY, "");
    m.lobby_mut().relay_mut().sync(&mut hub);
    assert_eq!(hub.len(), 1);

    let mut stranger = Matchmaker::new(MockRelay::new(&hub), someone(), "B1", 1_000);
    stranger.lobby_mut().relay_mut().sync(&mut hub);
    let _ = stranger.pump();
    assert_eq!(stranger.regions().len(), 0);

    let mut friend = Matchmaker::new(MockRelay::new(&hub), someone(), "B1", 1_000);
    friend.watch_code(&m.room_code());
    friend.lobby_mut().relay_mut().sync(&mut hub);
    let _ = friend.pump();
    let found = friend.regions();
    assert_eq!(found.len(), 1);
    assert!(found[0].private);
    assert_eq!(found[0].region, room_code_region(&m.room_code()));
}

#[test]
fn adverts_are_throttled() {
    let mut hub = MockHub::new();
    let mut m = Matchmaker::new(MockRelay::new(&hub), someone(), "A1", 500);
    for now in [500, 501, 507, 508, 515, 516] {
        m.advertise(now, 1, 1, 0, ZERO_KEY, "");
    }
    m.lobby_mut().relay_mut().sync(&mut hub);
    let times: Vec<u64> = (0..hub.len()).map(|i| hub.event(i).unwrap().created_at).collect();
    assert_eq!(times, vec![500, 508, 516]);
}

#[test]
fn relay_messages_have_their_form() {
    let id = someone();
    let ev = beacon_of(&id, "A1", 3).to_event(&id, 9).unwrap();
    assert_eq!(publish_frame(&ev), format!("[\"EVENT\",{}]", ev.to_json()));
    let f = Filter { kinds: vec![29001, 7], topics: vec![], recipients: vec![], since: None };
    assert_eq!(subscribe_frame(&vec![], &f), "[\"REQ\",\"ivn-29001-7\",{\"kinds\":[29001,7]}]");
    let back = relay_event(format!("[\"EVENT\",\"ivn\",{}]", ev.to_json()).into_bytes()).unwrap();
    assert!(same_event(&back, &ev));
    assert!(relay_event(b"[\"EOSE\",\"ivn\"]".to_vec()).is_none());
    assert!(relay_event(b"[\"EVENT\",\"ivn\"]".to_vec()).is_none());
    assert!(relay_event(vec![0xFF, 0xFE]).is_none());
}

/// The id that a subscription goes by.
fn sub_id(frame: &str) -> &str {
    frame.split('"').nth(3).unwrap()
}

#[test]
fn every_filter_has_an_id_of_its_own() {
    let plain = Filter { kinds: vec![29001], ..Filter::default() };
    let named = Filter { kinds: vec![29001], topics: vec!["ivn-x".to_string()], ..Filter::default() };
    let since = Filter { kinds: vec![29001], since: Some(7), ..Filter::default() };
    let other = Filter { kinds: vec![29002], recipients: vec!["ab".to_string()], ..Filter::default() };
    let mut r = WasmRelay::connect(&["wss://nos.lol".to_string()]);
    for f in [&plain, &other, &named, &since, &named, &plain] {
        r.subscribe(f.clone());
    }
    let out = r.take_outgoing();
    let ids: Vec<&str> = out.iter().map(|s| sub_id(s)).collect();
    assert_eq!(ids, vec!["ivn-29001", "ivn-29002", "ivn-29001x2", "ivn-29001x3", "ivn-29001x2", "ivn-29001"]);
    assert!(plain.same(&plain.clone()) && !plain.same(&named) && !named.same(&since) && !plain.same(&Filter::default()));
}

#[test]
fn copies_are_alike() {
    let id = someone();
    let b = beacon_of(&id.clone(), "A1", 3);
    assert_eq!(b, b.clone());
    let ev = b.to_event(&id, 9).unwrap();
    assert_eq!(ev, ev.clone());
    let j = parse("{\"a\":[1,null,true,\"x\"],\"b\":{\"c\":2.5}}").unwrap();
    let k = j.clone();
    assert_eq!(member(k.as_obj().unwrap(), "a").unwrap().as_arr().unwrap()[3].as_str(), Some("x"));
    assert_eq!(format!("{j:?}"), format!("{k:?}"));
}

#[test]
fn a_socket_relay_queues_what_it_says() {
    let id = someone();
    let mut r = WasmRelay::connect(&["wss://nos.lol".to_string()]);
    assert_eq!(r.urls().len(), 1);
    r.subscribe(Filter { kinds: vec![1], topics: vec![], recipients: vec![], since: None });
    let ev = beacon_of(&id, "A1", 3).to_event(&id, 9).unwrap();
    r.publish(&ev);
    let out = r.take_outgoing();
    assert_eq!(out.len(), 2);
    assert_eq!(out[0], "[\"REQ\",\"ivn-1\",{\"kinds\":[1]}]");
    assert!(r.take_outgoing().is_empty());
    r.feed(b"noise".to_vec());
    r.feed(format!("[\"EVENT\",\"ivn-1\",{}]", ev.to_json()).into_bytes());
    let got = r.poll();
    assert_eq!(got.len(), 1);
    assert!(same_event(&got[0], &ev));
    assert!(r.poll().is_empty());
}

#[test]
fn mesh_events_have_their_layout() {
    assert!(matches!(mesh_event(&[1, 2, 0, 0, 0]), Some(TransportEv::Connected { conn: 513 })));
    match mesh_event(&[7, 0, 0, 0, 1, 9, 8]) {
        Some(TransportEv::Data { conn, bytes }) => assert_eq!((conn, bytes), (7, vec![9, 8])),
        _ => panic!("data"),
    }
    assert!(matches!(mesh_event(&[0, 0, 0, 1, 2]), Some(TransportEv::Closed { conn: 0x0100_0000 })));
    assert!(mesh_event(&[0, 0, 0, 0, 3]).is_none());
    assert!(mesh_event(&[0, 0, 0, 0]).is_none());
    let mut mesh = WebRtcMesh::new();
    mesh.feed(&[1, 0, 0, 0, 0]);
    mesh.feed(&[1]);
    mesh.feed(&[1, 0, 0, 0, 2]);
    assert_eq!(mesh.take().len(), 2);
    assert!(mesh.take().is_empty());
}

#[test]
fn the_bridge_carries_signals_both_ways() {
    let mut hub = MockHub::new();
    let (a, b) = (someone(), someone());
    let mut la = open(&hub, &a);
    let mut lb = open(&hub, &b);
    // a peer connection of a wants an offer sent to b
    let mut frame = vec![1, 0, 0, 0];
    frame.extend_from_slice(&b.pk);
    frame.push(0);
    frame.extend_from_slice("v=0 é".as_bytes());
    let (to, sig) = outbound_signal(&frame).unwrap();
    assert_eq!(to, b.pk);
    assert!(is_offer(&sig, "v=0 é"));
    pump_outbound(&mut la, &frame, 44);
    pump_outbound(&mut la, &frame[..36], 44);
    frame[36] = 9;
    pump_outbound(&mut la, &frame, 44);
    la.relay_mut().sync(&mut hub);
    assert_eq!(hub.len(), 1);
    lb.relay_mut().sync(&mut hub);
    let (steps, accepted) = pump_inbound(&mut lb);
    assert_eq!(steps.len(), 1);
    match &steps[0] {
        RtcStep::Offer { peer, sdp } => assert_eq!((peer.clone(), sdp.as_str()), (hex_encode(&a.pk), "v=0 é")),
        _ => panic!("an offer"),
    }
    assert_eq!(accepted, vec![a.pk]);
    // bytes that are no text are read as best they can be
    let mut odd = vec![0, 0, 0, 0];
    odd.extend_from_slice(&b.pk);
    odd.push(2);
    odd.push(0xFF);
    assert!(matches!(outbound_signal(&odd), Some((_, Signal::Ice(t))) if t == "\u{fffd}"));
}

#[test]
fn keys_are_read_from_their_hex() {
    let id = someone();
    assert_eq!(key_from_hex(&hex_encode(&id.pk)), Some(id.pk));
    assert_eq!(key_from_hex("xyz"), None);
}

#[test]
fn joining_needs_a_link() {
    let host = someone();
    assert!(join(None, &host.pk, someone(), "ada", 1, 5).is_none());
    assert!(join(Some(4), &host.pk, someone(), "ada", 1, 5).is_some());
}

#[test]
fn a_lobby_watches_the_regions_it_is_told() {
    let mut hub = MockHub::new();
    let host = someone();
    let mut adv = open(&hub, &host);
    adv.advertise(&beacon_of(&host, "A1", 1), 50);
    adv.advertise(&beacon_of(&host, "B2", 1), 50);
    adv.relay_mut().sync(&mut hub);
    let mut narrow = Lobby::new(MockRelay::new(&hub), someone(), &["B2".to_string()], None);
    let _ = signals(&mut narrow, &mut hub);
    assert_eq!(narrow.regions().len(), 1);
    assert_eq!(narrow.regions()[0].region, "B2");
    let mut late = Lobby::new(MockRelay::new(&hub), someone(), &[], Some(51));
    let _ = signals(&mut late, &mut hub);
    assert_eq!(late.regions().len(), 0);
    assert_eq!(adv.my_key(), host.pk);
}

#[test]
fn the_freshest_beacon_stays() {
    let mut hub = MockHub::new();
    let host = someone();
    let mut a = open(&hub, &host);
    let mut j = open(&hub, &someone());
    a.advertise(&beacon_of(&host, "A1", 100), 1_700_000_000);
    a.advertise(&beacon_of(&host, "A1", 50), 1_699_999_990);
    a.relay_mut().sync(&mut hub);
    j.relay_mut().sync(&mut hub);
    j.poll();
    let r = j.regions();
    assert_eq!((r.len(), r[0].region.as_str(), r[0].tick), (1, "A1", 100));
}

#[test]
fn text_beyond_ascii_passes_through() {
    match parse("\"\u{e9}\"") {
        Some(Json::Str(s)) => assert_eq!(s, "\u{e9}"),
        _ => panic!("no string"),
    }
    match parse("[\"a\\u00e9\u{20ac}\u{1f600}\\n\",\"\u{7f}\"]") {
        Some(Json::Arr(v)) => {
            assert_eq!(v[0].as_str(), Some("a\u{e9}\u{20ac}\u{1f600}\n"));
            assert_eq!(v[1].as_str(), Some("\u{7f}"));
        }
        _ => panic!("no list"),
    }
    // an event with an accented name survives its relay
    let id = someone();
    let tags = vec![vec!["t".into(), "vall\u{e9}e".into()], vec![]];
    let ev = Event::create(&id, 0x20_0000_0000_0000, KIND_BEACON, tags, "Zo\u{eb} \u{1f3d4}".into()).unwrap();
    let back = Event::from_json(&parse(&ev.to_json()).unwrap()).unwrap();
    assert!(same_event(&back, &ev));
    assert!(back.verify());
    let mut b = beacon_of(&id, "A1", 7);
    b.controller_name = "Zo\u{eb}".into();
    assert!(same_beacon(&Beacon::from_event(&b.to_event(&id, 1).unwrap()).unwrap(), &b));
}

#[test]
fn a_signature_is_hexadecimal() {
    let id = someone();
    let ev = Event::create(&id, 1, KIND_BEACON, vec![], "x".into()).unwrap();
    let with = |sig: &str| Event::from_json(&parse(&ev.to_json().replace(&hex_encode(&ev.sig), sig)).unwrap());
    assert!(with(&hex_encode(&ev.sig).to_uppercase()).is_some_and(|e| e.verify()));
    assert!(with(&"+1".repeat(64)).is_none());
    assert!(with(&format!("0{}0", "\u{e9}".repeat(63))).is_none());
    assert!(with(&"ab".repeat(63)).is_none());
    assert!(with(&"ab".repeat(65)).is_none());
}

#[test]
fn a_filter_counts_when_the_relay_is_polled() {
    let mut hub = MockHub::new();
    let host = someone();
    let mut out = MockRelay::new(&hub);
    out.publish(&beacon_of(&host, "A1", 1).to_event(&host, 1).unwrap());
    out.sync(&mut hub);
    let mut late = MockRelay::new(&hub);
    late.sync(&mut hub);
    late.subscribe(Filter::beacons(vec![region_topic("A1")], None));
    assert_eq!(late.poll().len(), 1);
    assert_eq!(late.poll().len(), 0);
}

#[test]
fn a_signal_is_for_its_recipient() {
    let (alice, bob, eve) = (someone(), someone(), someone());
    let mut ev = Signal::Ice("a\nb".into()).to_event(&alice, &bob.pk, 3).unwrap();
    assert!(ev.verify());
    assert_eq!((ev.kind, ev.tag("p")), (29000, Some(hex_encode(&bob.pk).as_str())));
    let (from, sig) = Signal::from_event(&ev, &bob).unwrap();
    assert_eq!(from, alice.pk);
    assert!(matches!(sig, Signal::Ice(t) if t == "a\nb"));
    assert!(Signal::from_event(&ev, &eve).is_none());
    ev.kind = KIND_BEACON;
    assert!(Signal::from_event(&ev, &bob).is_none());
}
