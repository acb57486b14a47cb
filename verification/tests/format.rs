//! The wire formats.

use ironvein::command::{Command, Eid, Tp};
use ironvein::crypto::Identity;
use ironvein::links::{Inlet, Link, LinkTable, News};
use ironvein::protocol::{read_frame, write_frame, Envelope, Frame, Msg, PeerInfo, MAX_FRAME};
use ironvein::ser::{R, W};
use ironvein::transport::TransportEv;

fn all_commands() -> Vec<Command> {
    let e = Eid { idx: 7, gen: 9 };
    let t = Tp::new(-3, 70_000);
    vec![
        Command::Join { name: "Ada".into(), color: 3, key: [4; 32] },
        Command::Chat { text: "hé".into() },
        Command::Move { units: vec![e, e], to: t },
        Command::AttackMove { units: vec![], to: t },
        Command::Attack { units: vec![e], target: e },
        Command::Harvest { units: vec![e], tile: t },
        Command::Capture { unit: e, target: e },
        Command::Stop { units: vec![e] },
        Command::Sell { building: e },
        Command::Train { building: e, kind: 5 },
        Command::Build { kind: 6, at: t },
        Command::SetRally { building: e, at: t },
        Command::FireNuke { silo: e, at: t },
        Command::GiveCredits { to: 2, amount: 500 },
        Command::Ally { with: 1 },
    ]
}

#[test]
fn commands_read_back() {
    for c in all_commands() {
        let mut w = W::new();
        c.ser(&mut w);
        let mut r = R::new(&w.buf);
        let back = Command::de(&mut r).unwrap();
        assert_eq!(format!("{:?}", back), format!("{:?}", c));
        assert_eq!(r.left(), 0);
        // a cut command is refused
        let mut cut = R::new(&w.buf[..w.buf.len() - 1]);
        assert!(Command::de(&mut cut).is_err());
    }
    let mut unknown = R::new(&[200]);
    assert!(Command::de(&mut unknown).is_err());
}

#[test]
fn integers_are_little_endian() {
    let mut w = W::new();
    w.u16(0x0102);
    w.u32(0x0304_0506);
    w.u64(7);
    w.i32(-2);
    w.bool(true);
    w.str("ab");
    assert_eq!(
        w.buf,
        vec![2, 1, 6, 5, 4, 3, 7, 0, 0, 0, 0, 0, 0, 0, 0xFE, 0xFF, 0xFF, 0xFF, 1, 2, 0, 0, 0, b'a', b'b']
    );
    let mut r = R::new(&w.buf);
    assert_eq!(r.u16().unwrap(), 0x0102);
    assert_eq!(r.u32().unwrap(), 0x0304_0506);
    assert_eq!(r.u64().unwrap(), 7);
    assert_eq!(r.i32().unwrap(), -2);
    assert!(r.bool().unwrap());
    assert_eq!(r.str().unwrap(), "ab");
    assert!(r.u8().is_err());
    // text must be text
    let mut bad = R::new(&[1, 0, 0, 0, 0xFF]);
    assert!(bad.str().is_err());
}

fn all_messages() -> Vec<Msg> {
    let peer = PeerInfo { pid: 2, name: "bea".into(), color: 1, addr: "10.0.0.1:5".into(), key: [8; 32], bot: false };
    vec![
        Msg::Hello { name: "ada".into(), color: 2, listen_port: 6000 },
        Msg::Welcome { pid: 1, start_tick: 9, peers: vec![peer.dup()], snapshot: vec![1, 2, 3] },
        Msg::Deny { reason: "world full".into() },
        Msg::PeerJoined { info: peer, start_tick: 12 },
        Msg::Cmds { tick: 4, pid: 1, cmds: all_commands() },
    ]
}

#[test]
fn messages_read_back() {
    for m in all_messages() {
        let bytes = m.encode();
        let back = Msg::decode(&bytes).unwrap();
        assert_eq!(format!("{:?}", back), format!("{:?}", m));
        assert!(Msg::decode(&bytes[..bytes.len() - 1]).is_err());
    }
    assert!(Msg::decode(&[]).is_err());
    assert!(Msg::decode(&[250]).is_err());
}

#[test]
fn envelopes_read_back() {
    let id = Identity::generate().unwrap();
    let bytes = Envelope::seal(&id, 77, &Msg::Deny { reason: "no".into() }).unwrap();
    let env = Envelope::decode(&bytes).unwrap();
    assert_eq!((env.sender, env.seq), (id.pk, 77));
    assert!(env.verify());
    assert!(matches!(Msg::decode(&env.payload), Ok(Msg::Deny { .. })));
    assert!(Envelope::decode(&bytes[..40]).is_err());
    let again = Envelope::seal_with(&id, 77, &Msg::Deny { reason: "no".into() }, &[1; 32]);
    assert!(again.is_some());
}

#[test]
fn frames_read_back() {
    let mut s = Vec::new();
    write_frame(&mut s, b"hello");
    write_frame(&mut s, b"");
    assert_eq!(&s[..4], &[5, 0, 0, 0]);
    match read_frame(&s) {
        Frame::Whole { payload, used } => assert_eq!((payload.as_slice(), used), (&b"hello"[..], 9)),
        _ => panic!("a frame"),
    }
    assert!(matches!(read_frame(&s[..8]), Frame::Partial));
    assert!(matches!(read_frame(&s[..3]), Frame::Partial));
    let big = ((MAX_FRAME + 1) as u32).to_le_bytes();
    assert!(matches!(read_frame(&big), Frame::TooLarge));
}

#[test]
fn links_queue_until_they_are_up() {
    let mut l = Link::new(false);
    assert!(l.send_payload(b"one").is_none());
    assert!(l.send_payload(b"two").is_none());
    let mut want = Vec::new();
    write_frame(&mut want, b"one");
    write_frame(&mut want, b"two");
    assert_eq!(l.attach(), want);
    assert!(l.attach().is_empty());
    assert_eq!(l.send_payload(b"x").unwrap(), vec![1, 0, 0, 0, b'x']);
    l.kill();
    assert!(l.send_payload(b"x").is_none());
    assert!(Link::new(true).send_payload(b"y").is_some());
}

#[test]
fn own_closes_are_not_reported() {
    let mut t = LinkTable::new();
    t.open(1);
    assert!(matches!(t.hear(News::Accepted { conn: 2 }), Some(TransportEv::Connected { conn: 2 })));
    assert!(matches!(t.hear(News::Up { conn: 1 }), Some(TransportEv::Connected { conn: 1 })));
    assert!(matches!(t.hear(News::Data { conn: 2, bytes: vec![7] }), Some(TransportEv::Data { conn: 2, bytes }) if bytes == [7]));
    assert!(t.has(1) && t.has(2) && !t.has(3));
    assert!(t.close(1) && !t.close(1) && !t.has(1));
    assert!(t.hear(News::Down { conn: 1 }).is_none());
    assert!(matches!(t.hear(News::Down { conn: 2 }), Some(TransportEv::Closed { conn: 2 })));
    assert!(t.hear(News::Down { conn: 2 }).is_none());
}

#[test]
fn streams_carry_frames_however_they_are_cut() {
    let mut s = Vec::new();
    for p in [&b"one"[..], b"", b"three"] {
        write_frame(&mut s, p);
    }
    for cut in 0..=s.len() {
        let mut i = Inlet::new();
        let (mut got, ok) = i.feed(&s[..cut]);
        assert!(ok);
        let (more, ok) = i.feed(&s[cut..]);
        assert!(ok);
        got.extend(more);
        assert_eq!(got, vec![b"one".to_vec(), b"".to_vec(), b"three".to_vec()]);
    }
    let mut i = Inlet::new();
    let (got, ok) = i.feed(&[0xFF, 0xFF, 0xFF, 0xFF, 1]);
    assert!(got.is_empty() && !ok);
}
