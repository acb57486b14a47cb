//! Whole sessions, on an in-memory mesh, with a small world underneath: settlers and chat.

use ironvein::command::{Command, Eid, Tp};
use ironvein::crypto::Identity;
use ironvein::joiner::{JoinStep, Joiner};
use ironvein::protocol::{Envelope, Msg, HOST_PID};
use ironvein::ser::{R, W};
use ironvein::session::{must_dial, pid_for, Need, Out, Player, Session, World};
use ironvein::tables::PidMap;
use ironvein::state::{SessionKind, MAX_PLAYERS, TICK_NS};
use ironvein::transport::{NullTransport, Transport, TransportEv};
use std::collections::{HashMap, VecDeque};

fn someone() -> Identity {
    Identity::generate().expect("a fresh identity")
}

// ----------------------------------------------------------------------
// A small world
// ----------------------------------------------------------------------

#[derive(Clone)]
struct Settler {
    joined: bool,
    name: String,
    key: [u8; 32],
}

#[derive(Clone)]
struct Valley {
    tick: u32,
    settlers: Vec<Settler>,
    chat: Vec<(u32, u8, String)>,
    orders: u32,
}

impl Valley {
    fn new() -> Valley {
        Valley { tick: 0, settlers: Vec::new(), chat: Vec::new(), orders: 0 }
    }

    fn run(&mut self, orders: Vec<(u8, Command)>) {
        for (pid, c) in orders {
            self.orders += 1;
            match c {
                Command::Join { name, key, .. } => {
                    while self.settlers.len() <= pid as usize {
                        self.settlers.push(Settler { joined: false, name: String::new(), key: [0; 32] });
                    }
                    self.settlers[pid as usize] = Settler { joined: true, name, key };
                }
                Command::Chat { text } => self.chat.push((self.tick, pid, text)),
                _ => {}
            }
        }
        self.tick += 1;
    }

    fn save(&self) -> Vec<u8> {
        let mut w = W::new();
        w.u32(self.tick);
        w.u32(self.orders);
        w.u32(self.settlers.len() as u32);
        for s in &self.settlers {
            w.bool(s.joined);
            w.str(&s.name);
            w.arr32(&s.key);
        }
        w.u32(self.chat.len() as u32);
        for (t, p, text) in &self.chat {
            w.u32(*t);
            w.u8(*p);
            w.str(text);
        }
        w.buf
    }

    fn load(bytes: &[u8]) -> Option<Valley> {
        let mut r = R::new(bytes);
        let tick = r.u32().ok()?;
        let orders = r.u32().ok()?;
        let mut v = Valley { tick, settlers: Vec::new(), chat: Vec::new(), orders };
        for _ in 0..r.u32().ok()? {
            v.settlers.push(Settler { joined: r.bool().ok()?, name: r.str().ok()?, key: r.arr32().ok()? });
        }
        for _ in 0..r.u32().ok()? {
            v.chat.push((r.u32().ok()?, r.u8().ok()?, r.str().ok()?));
        }
        Some(v)
    }

    fn hash(&self) -> u64 {
        let mut h: u64 = 0xcbf2_9ce4_8422_2325;
        for b in self.save() {
            h = (h ^ b as u64).wrapping_mul(0x0000_0100_0000_01b3);
        }
        h
    }

    fn world(&self) -> World {
        World {
            tick: self.tick,
            players: self
                .settlers
                .iter()
                .map(|s| Player { joined: s.joined, name: s.name.clone(), key: s.key })
                .collect(),
        }
    }

    fn said(&self, words: &str) -> bool {
        self.chat.iter().any(|c| c.2.contains(words))
    }
}

// ----------------------------------------------------------------------
// A node: a session and its world
// ----------------------------------------------------------------------

struct Node {
    session: Session,
    valley: Valley,
    inbox: VecDeque<TransportEv>,
    outbox: Vec<(u64, Vec<u8>)>,
    closed: Vec<u64>,
    now: u64,
    /// What the world was at each tick it stood at.
    past: HashMap<u32, u64>,
}

impl Node {
    fn new(session: Session, valley: Valley) -> Node {
        Node { session, valley, inbox: VecDeque::new(), outbox: Vec::new(), closed: Vec::new(), now: 0, past: HashMap::new() }
    }

    fn satisfy(&mut self) {
        loop {
            let load = match self.session.need() {
                Need::Nothing => return,
                Need::Snapshot => None,
                Need::Load { snapshot, .. } => Some(snapshot.clone()),
            };
            match load {
                None => self.session.offer_snapshot(self.valley.save()),
                Some(bytes) => match Valley::load(&bytes) {
                    Some(v) => {
                        self.session.resume(Some(v.world()));
                        self.valley = v;
                        self.past.clear();
                    }
                    None => self.session.resume(None),
                },
            }
        }
    }

    fn update(&mut self, dt: u64) -> u32 {
        self.session.set_now(self.now);
        while let Some(ev) = self.inbox.pop_front() {
            self.session.handle_ev(ev);
            self.satisfy();
        }
        let mut stepped = 0;
        if self.session.tend() {
            self.satisfy();
            if self.session.kind == SessionKind::Host && self.session.frozen() {
                let ips: Vec<String> = self.session.lobby_conns().iter().map(|_| "127.0.0.1".to_string()).collect();
                self.session.try_admit(&self.valley.save(), &ips);
            }
            if self.session.pace(dt) {
                while self.session.due(stepped) {
                    let orders = self.session.begin_tick();
                    self.valley.run(orders);
                    self.session.finish_tick(self.valley.world(), self.valley.hash());
                    self.past.insert(self.valley.tick, self.valley.hash());
                    stepped += 1;
                }
                self.session.settle(stepped);
            }
        }
        for out in self.session.outgoing() {
            match out {
                Out::Frame { to, bytes } => {
                    for c in to {
                        self.outbox.push((c, bytes.clone()));
                    }
                }
                Out::Close { conn } => self.closed.push(conn),
                Out::Unsealed => panic!("unsealed"),
            }
        }
        stepped
    }
}

// ----------------------------------------------------------------------
// A mesh of nodes
// ----------------------------------------------------------------------

/// The far end of each link: (node, link) of the one and of the other.
struct Mesh {
    nodes: Vec<Option<Node>>,
    ports: Vec<u16>,
    links: Vec<((usize, u64), (usize, u64))>,
    next: u64,
}

impl Mesh {
    fn new() -> Mesh {
        Mesh { nodes: Vec::new(), ports: Vec::new(), links: Vec::new(), next: 1 }
    }

    fn add(&mut self, node: Option<Node>, port: u16) -> usize {
        self.nodes.push(node);
        self.ports.push(port);
        self.nodes.len() - 1
    }

    fn node(&mut self, i: usize) -> &mut Node {
        self.nodes[i].as_mut().expect("a live node")
    }

    fn dial(&mut self, from: usize, addr: &str) -> Option<u64> {
        let port: u16 = addr.rsplit(':').next()?.parse().ok()?;
        let to = self.ports.iter().position(|p| *p == port)?;
        let (a, b) = (self.next, self.next + 1);
        self.next += 2;
        self.links.push(((from, a), (to, b)));
        for (n, c) in [(from, a), (to, b)] {
            if let Some(node) = &mut self.nodes[n] {
                node.inbox.push_back(TransportEv::Connected { conn: c });
            }
        }
        Some(a)
    }

    fn far(&self, end: (usize, u64)) -> Option<(usize, u64)> {
        self.links.iter().find_map(|(x, y)| if *x == end { Some(*y) } else if *y == end { Some(*x) } else { None })
    }

    fn cut(&mut self, end: (usize, u64)) {
        if let Some((n, c)) = self.far(end) {
            if let Some(node) = &mut self.nodes[n] {
                node.inbox.push_back(TransportEv::Closed { conn: c });
            }
        }
        self.links.retain(|(x, y)| *x != end && *y != end);
    }

    /// Carry what one node sent to the others.
    fn carry(&mut self, i: usize) {
        let (frames, closed) = match &mut self.nodes[i] {
            Some(n) => (std::mem::take(&mut n.outbox), std::mem::take(&mut n.closed)),
            None => return,
        };
        for (c, bytes) in frames {
            if let Some((n, far)) = self.far((i, c)) {
                if let Some(node) = &mut self.nodes[n] {
                    node.inbox.push_back(TransportEv::Data { conn: far, bytes });
                }
            }
        }
        for c in closed {
            self.cut((i, c));
        }
    }

    fn pump(&mut self, i: usize) {
        self.node(i).update(TICK_NS);
        self.carry(i);
    }

    fn pump_all(&mut self, rounds: usize) {
        for _ in 0..rounds {
            for i in 0..self.nodes.len() {
                if self.nodes[i].is_some() {
                    self.pump(i);
                }
            }
        }
    }

    /// A settler joins the world of node 0; the others keep running.
    fn join(&mut self, port: u16, name: &str, color: u8) -> usize {
        let host_port = self.ports[0];
        let me = self.add(None, port);
        let link = self.dial(me, &format!("127.0.0.1:{host_port}"));
        let mut joiner = Joiner::new(link, someone(), name, color).expect("dialed");
        let hello = joiner.hello(port).expect("a hello");
        assert!(joiner.hello(port).is_none(), "a hello goes out once");
        let (host, far) = self.far((me, link.unwrap())).unwrap();
        self.node(host).inbox.push_back(TransportEv::Data { conn: far, bytes: hello });
        let mut events: Vec<TransportEv> = Vec::new();
        for _ in 0..400 {
            for i in 0..me {
                if self.nodes[i].is_none() {
                    continue;
                }
                self.node(i).update(TICK_NS);
                // what goes to the joiner is kept for it
                let frames = std::mem::take(&mut self.node(i).outbox);
                for (c, bytes) in frames {
                    match self.far((i, c)) {
                        Some((n, f)) if n == me => events.push(TransportEv::Data { conn: f, bytes }),
                        Some((n, f)) => {
                            if let Some(other) = &mut self.nodes[n] {
                                other.inbox.push_back(TransportEv::Data { conn: f, bytes });
                            }
                        }
                        None => {}
                    }
                }
                match joiner.poll(&events) {
                    (JoinStep::Waiting, n) => {
                        events.drain(..n);
                    }
                    (JoinStep::Failed { reason }, _) => panic!("{}", reason),
                    (JoinStep::Welcomed { welcome }, n) => {
                        let rest: Vec<TransportEv> = events.drain(n..).collect();
                        let valley = Valley::load(&welcome.snapshot).expect("a snapshot");
                        let my_pid = welcome.pid;
                        let dialled: Vec<Option<u64>> = welcome
                            .peers
                            .iter()
                            .map(|p| if must_dial(p, my_pid) { self.dial(me, &p.addr) } else { None })
                            .collect();
                        let session = joiner.finish(0, welcome, Some(valley.world()), &dialled).expect("a session");
                        let mut node = Node::new(session, valley);
                        node.inbox.extend(rest);
                        // say who dialed before the others go on
                        node.update(0);
                        self.nodes[me] = Some(node);
                        self.carry(me);
                        return me;
                    }
                }
            }
        }
        panic!("{name} never got in");
    }

    /// A node's machine dies: all its links drop.
    fn kill(&mut self, i: usize) {
        let ends: Vec<(usize, u64)> = self
            .links
            .iter()
            .filter_map(|(x, y)| if x.0 == i { Some(*x) } else if y.0 == i { Some(*y) } else { None })
            .collect();
        for e in ends {
            self.cut(e);
        }
        self.nodes[i] = None;
    }
}

/// At how many ticks have both nodes stood? At each of them their worlds must be the same.
fn compared(mesh: &mut Mesh, a: usize, b: usize) -> usize {
    let past = mesh.node(a).past.clone();
    let mut n = 0;
    for (tick, hash) in &mesh.node(b).past {
        if let Some(h) = past.get(tick) {
            assert_eq!(h, hash, "tick {}, different worlds", tick);
            n += 1;
        }
    }
    n
}

fn host_of(port: u16, bots: &[String]) -> Mesh {
    let mut mesh = Mesh::new();
    let valley = Valley::new();
    let session = Session::host(valley.world(), someone(), port, "keeper", 0, bots);
    mesh.add(Some(Node::new(session, valley)), port);
    mesh
}

#[test]
fn a_late_join_runs_in_lockstep_and_departs_cleanly() {
    let port = 47361u16;
    let mut mesh = host_of(port, &["Bot Gravel".to_string()]);
    assert!(mesh.node(0).session.kind == SessionKind::Host);

    // Let the host's world get some history before anyone joins.
    mesh.pump_all(40);
    assert!(mesh.node(0).valley.tick > 20, "host world should be advancing solo");

    let alice = mesh.join(port + 1, "alice", 3);
    assert!(mesh.node(alice).session.kind == SessionKind::Client);
    let (a, h) = (mesh.node(alice).session.my_pid, mesh.node(0).session.my_pid);
    assert_ne!(a, h);

    // Run both ends, with traffic flowing each way.
    for i in 0..200 {
        mesh.pump_all(1);
        if i == 60 {
            mesh.node(alice).session.queue(Command::Chat { text: "settling the east bank".into() });
        }
        if i == 120 {
            mesh.node(0).session.queue(Command::Chat { text: "welcome, alice".into() });
        }
    }
    let ap = mesh.node(alice).session.my_pid as usize;
    for i in [0, alice] {
        let n = mesh.node(i);
        assert!(n.session.desync_at.is_none(), "desync: {}", n.session.status);
        assert_eq!(n.session.peer_count(), 3, "keeper + bot + alice");
        assert!(n.valley.settlers[ap].joined, "the world never saw alice's Join");
        assert!(n.valley.said("east bank"));
        assert!(n.valley.said("welcome"));
    }
    assert!(mesh.node(alice).valley.tick > 100, "alice's world should be running");

    // Compare full state hashes at every tick that both have seen.
    mesh.pump_all(50);
    assert!(compared(&mut mesh, 0, alice) > 100);

    // Alice quits. The host must notice, broadcast the verdict, and keep going.
    mesh.node(alice).session.leave();
    mesh.node(alice).update(0);
    mesh.carry(alice);
    mesh.kill(alice);
    let before = mesh.node(0).valley.tick;
    mesh.pump_all(100);
    let host = mesh.node(0);
    assert_eq!(host.session.peer_count(), 2, "alice should be out of the roster");
    assert!(host.valley.tick > before + 50, "world must keep flowing after a departure");
    assert!(host.valley.settlers[ap].joined, "her settlement persists offline");
    assert!(host.session.desync_at.is_none());
}

#[test]
fn a_mesh_of_three_stays_identical() {
    let port = 47391u16;
    let mut mesh = host_of(port, &[]);
    mesh.pump_all(20);
    let bea = mesh.join(port + 1, "bea", 2);
    // run a little, then a third peer joins the live pair
    mesh.pump_all(40);
    let cole = mesh.join(port + 2, "cole", 5);
    let bea_pid = mesh.node(bea).session.my_pid;
    for i in 0..150 {
        mesh.pump_all(1);
        if i == 50 {
            mesh.node(bea).session.queue(Command::Chat { text: "mesh check".into() });
            mesh.node(cole).session.queue(Command::GiveCredits { to: bea_pid, amount: 100 });
        }
    }
    for i in [0, bea, cole] {
        let n = mesh.node(i);
        assert!(n.session.desync_at.is_none(), "desync: {}", n.session.status);
        assert_eq!(n.session.peer_count(), 3);
        assert!(n.valley.said("mesh check"));
    }
    assert!(mesh.node(cole).valley.tick > 80, "cole's world is live");
    // direct state comparison wherever the three line up
    mesh.pump_all(50);
    assert!(compared(&mut mesh, 0, bea) > 100);
    assert!(compared(&mut mesh, bea, cole) > 80);
}

#[test]
fn a_migration_keeps_the_world_alive() {
    let port = 47411u16;
    let mut mesh = host_of(port, &[]);
    mesh.pump_all(20);
    let bea = mesh.join(port + 1, "bea", 2);
    let cole = mesh.join(port + 2, "cole", 5);
    // run the trio for a while so each has real history
    mesh.pump_all(60);
    assert_eq!(mesh.node(bea).session.peer_count(), 3);
    let bea_pid = mesh.node(bea).session.my_pid;
    let cole_pid = mesh.node(cole).session.my_pid;
    assert!(bea_pid != 0 && cole_pid != 0, "host is pid 0; clients are not");
    let new_host_pid = bea_pid.min(cole_pid);

    // THE HOST DIES.
    mesh.kill(0);
    mesh.pump_all(60);
    for i in [bea, cole] {
        let n = mesh.node(i);
        assert!(n.session.desync_at.is_none(), "desync during migration: {}", n.session.status);
        assert_eq!(n.session.peer_count(), 2, "the dead host is out of the roster");
    }
    assert_eq!(new_host_pid, bea_pid);
    assert!(mesh.node(bea).session.kind == SessionKind::Host, "lowest pid should now host");
    assert!(mesh.node(cole).session.kind == SessionKind::Client);
    // The world kept its identity: the keeper's settlement (pid 0) persists.
    assert!(mesh.node(bea).valley.settlers[0].joined, "the departed host's base persists");

    // And crucially: the two survivors are running the SAME world.
    let before = mesh.node(bea).valley.tick;
    mesh.pump_all(100);
    assert!(compared(&mut mesh, bea, cole) > 80, "survivors diverged after migration");
    assert!(mesh.node(bea).valley.tick > before + 50, "world must keep flowing after migration");
}

// ----------------------------------------------------------------------
// Authentication
// ----------------------------------------------------------------------

#[test]
fn envelope_signature_and_replay_rules() {
    let alice = someone();
    let mallory = someone();
    let msg = Msg::Cmds {
        tick: 10,
        pid: 2,
        cmds: vec![Command::Move { units: vec![Eid { idx: 1, gen: 1 }], to: Tp::new(5, 5) }],
    };

    // a well-formed signed envelope verifies and names its true signer
    let good = Envelope::decode(&Envelope::seal(&alice, 100, &msg).unwrap()).unwrap();
    assert!(good.verify());
    assert_eq!(good.sender, alice.pk);

    // flip a byte of the signature -> rejected
    let mut tampered = Envelope::decode(&Envelope::seal(&alice, 100, &msg).unwrap()).unwrap();
    tampered.sig[0] ^= 0xff;
    assert!(!tampered.verify());

    // claim alice's pubkey but the bytes were signed by mallory -> rejected
    let mut forged = Envelope::decode(&Envelope::seal(&mallory, 100, &msg).unwrap()).unwrap();
    forged.sender = alice.pk;
    assert!(!forged.verify(), "must not verify against a key that didn't sign");

    // seq is bound into the signature: a captured frame can't be silently
    // renumbered to slip past the replay window
    let mut renumbered = Envelope::decode(&Envelope::seal(&alice, 100, &msg).unwrap()).unwrap();
    renumbered.seq = 101;
    assert!(!renumbered.verify());
}

impl Node {
    /// Deliver a signed frame to the session as if it arrived on `conn`.
    fn deliver(&mut self, conn: u64, signer: &Identity, seq: u64, msg: &Msg) {
        let bytes = Envelope::seal(signer, seq, msg).unwrap();
        self.inbox.push_back(TransportEv::Data { conn, bytes });
    }
}

/// Stand up a host with one legitimately-joined client over a scripted wire.
fn host_with_one_client() -> (Node, Identity, u64, u8) {
    let valley = Valley::new();
    let mut host = Node::new(Session::host_on(valley.world(), someone(), "keeper", 0, &[]), valley);
    let alice = someone();
    let aconn = 1;
    host.deliver(aconn, &alice, 1, &Msg::Hello { name: "alice".into(), color: 3, listen_port: 6000 });
    let mut alice_pid = None;
    for _ in 0..400 {
        host.update(TICK_NS);
        for pid in host.session.roster.keys() {
            if host.session.roster.get(pid).unwrap().name == "alice" {
                alice_pid = Some(pid);
            }
        }
        if alice_pid.is_some() {
            break;
        }
    }
    let alice_pid = alice_pid.expect("host admitted alice");
    assert_ne!(alice_pid, HOST_PID);
    (host, alice, aconn, alice_pid)
}

/// Lockstep needs a command row from alice for every tick or the host's barrier stalls. This
/// pumps the host forward, supplying empty alice rows to keep pace, and invokes `at_tick` once
/// when alice's command for a chosen tick should be sent.
fn pump_with_alice(
    host: &mut Node,
    alice: &Identity,
    aconn: u64,
    alice_pid: u8,
    target: u32,
    mut at_tick: impl FnMut(&mut Node, u32),
    rounds: usize,
) {
    let mut seq = 1000u64;
    let mut fired = false;
    for _ in 0..rounds {
        // keep alice's rows a few ticks ahead of the host's clock
        let tick = host.session.world.tick;
        for t in tick..=tick + 4 {
            if t == target {
                if !fired {
                    at_tick(host, t);
                    fired = true;
                }
                // never overwrite the target row with an empty one afterward
                continue;
            }
            host.deliver(aconn, alice, seq, &Msg::Cmds { tick: t, pid: alice_pid, cmds: vec![] });
            seq += 1;
        }
        host.update(TICK_NS);
    }
}

#[test]
fn host_drops_commands_with_forged_authorship() {
    let (mut host, alice, aconn, alice_pid) = host_with_one_client();
    let mallory = someone();
    let target = host.session.world.tick + 6;

    // At the target tick, mallory forges alice's authorship AND alice sends
    // her own legitimate command. Only the legit one may land.
    let alice2 = alice.dup();
    pump_with_alice(
        &mut host,
        &alice,
        aconn,
        alice_pid,
        target,
        move |h, t| {
            let chat = |s: &str| Msg::Cmds { tick: t, pid: alice_pid, cmds: vec![Command::Chat { text: s.into() }] };
            h.deliver(aconn, &mallory, 7_000, &chat("i am alice"));
            h.deliver(aconn, &alice2, 8_000, &chat("actually alice"));
        },
        120,
    );
    assert!(host.valley.said("actually alice"), "legit command must land: {:?}", host.valley.chat);
    assert!(!host.valley.said("i am alice"), "forged-authorship command must drop: {:?}", host.valley.chat);
}

#[test]
fn host_drops_replayed_frames() {
    let (mut host, alice, aconn, alice_pid) = host_with_one_client();
    let target = host.session.world.tick + 6;

    // Alice's genuine command is sent at seq 9000. An attacker immediately
    // replays a *different* command re-signed under alice's key but reusing
    // the already-seen seq 9000 — the strictly-increasing rule must reject it.
    let alice2 = alice.dup();
    pump_with_alice(
        &mut host,
        &alice,
        aconn,
        alice_pid,
        target,
        move |h, t| {
            let chat = |s: &str| Msg::Cmds { tick: t, pid: alice_pid, cmds: vec![Command::Chat { text: s.into() }] };
            h.deliver(aconn, &alice2, 9_000, &chat("hello once"));
            // stale-seq replay (same 9000): must be dropped before it reaches the row
            h.deliver(aconn, &alice2, 9_000, &chat("hello twice"));
        },
        120,
    );
    assert!(host.valley.said("hello once"), "first frame must land: {:?}", host.valley.chat);
    assert!(!host.valley.said("hello twice"), "stale-seq frame must drop: {:?}", host.valley.chat);
}

#[test]
fn host_emits_signed_welcome() {
    let (host, _alice, aconn, _pid) = host_with_one_client();
    // Everything the host sent on alice's conn must verify under the host key,
    // and a Welcome must be among it.
    let mut saw_welcome = false;
    for (c, bytes) in &host.outbox {
        if *c != aconn {
            continue;
        }
        let env = Envelope::decode(bytes).expect("host frame decodes");
        assert!(env.verify(), "every host frame is signed");
        if matches!(Msg::decode(&env.payload), Ok(Msg::Welcome { .. })) {
            saw_welcome = true;
        }
    }
    assert!(saw_welcome, "host must have sent a Welcome");
}

// ----------------------------------------------------------------------
// More of the session
// ----------------------------------------------------------------------

#[test]
fn a_solo_world_runs_on_its_own() {
    let valley = Valley::new();
    let bots = vec!["Bot Gravel".to_string(), "Bot Sable".to_string()];
    let mut n = Node::new(Session::solo(valley.world(), someone(), "ada", 3, &bots), valley);
    assert!(n.session.kind == SessionKind::Solo);
    assert_eq!(n.session.bot_pids(), vec![1, 2]);
    n.session.queue(Command::Chat { text: "hello".into() });
    n.session.queue_as(1, Command::Chat { text: "beep".into() });
    for _ in 0..10 {
        n.update(TICK_NS);
    }
    assert_eq!(n.valley.tick, 10);
    assert!(n.valley.said("hello") && n.valley.said("beep"));
    // our settlement was founded; the bots found theirs by themselves
    assert_eq!(n.valley.settlers.len(), 1);
    assert!(n.valley.settlers[0].joined && n.valley.settlers[0].name == "ada");
    assert!(n.outbox.is_empty());
}

#[test]
fn a_keeper_does_not_homestead() {
    let valley = Valley::new();
    let mut s = Session::host(valley.world(), someone(), 47777, "keeper", 7, &[]);
    s.skip_settle();
    assert_eq!(s.status, "hosting on port 47777 — friends join with --join <your-ip>:47777");
    let mut n = Node::new(s, valley);
    for _ in 0..10 {
        n.update(TICK_NS);
    }
    assert!(n.valley.settlers.iter().all(|s| !s.joined));
}

#[test]
fn a_stalled_frame_catches_up_only_so_far() {
    let valley = Valley::new();
    let mut n = Node::new(Session::solo(valley.world(), someone(), "ada", 3, &[]), valley);
    assert_eq!(n.update(100 * TICK_NS), 8);
    // the rest of the backlog is dropped
    assert_eq!(n.update(0), 0);
    assert_eq!(n.update(TICK_NS / 2), 0);
    assert_eq!(n.session.alpha(), TICK_NS / 2);
    assert_eq!(n.update(TICK_NS / 2), 1);
}

#[test]
fn a_full_world_denies() {
    let port = 40000;
    let mut mesh = host_of(port, &[]);
    for i in 1..MAX_PLAYERS as u16 {
        mesh.join(port + i, &format!("settler {i}"), 1);
    }
    assert_eq!(mesh.node(0).session.peer_count(), MAX_PLAYERS as usize);
    let far = 7_000;
    let knock = someone();
    let node = mesh.node(0);
    node.deliver(far, &knock, 1, &Msg::Hello { name: "late".into(), color: 0, listen_port: 1 });
    mesh.pump_all(30);
    // the denial went out on the knocker's link and was lost there; nobody came in
    assert_eq!(mesh.node(0).session.peer_count(), MAX_PLAYERS as usize);
}

#[test]
fn a_pinned_joiner_refuses_an_impostor() {
    let host = someone();
    let imposter = someone();
    let mut j = Joiner::new(Some(5), someone(), "ada", 1).unwrap();
    j.expect_host_key(host.pk);
    let welcome = Msg::Welcome { pid: 1, start_tick: 0, peers: vec![], snapshot: vec![] };
    let bytes = Envelope::seal(&imposter, 1, &welcome).unwrap();
    let step = j.handle_ev(&TransportEv::Data { conn: 5, bytes });
    assert!(!matches!(step, JoinStep::Welcomed { .. }));
    let deny = Envelope::seal(&host, 1, &Msg::Deny { reason: "full".into() }).unwrap();
    match j.handle_ev(&TransportEv::Data { conn: 5, bytes: deny }) {
        JoinStep::Failed { reason } => assert!(reason.contains("full")),
        _ => panic!("denied"),
    }
    assert!(matches!(j.handle_ev(&TransportEv::Closed { conn: 5 }), JoinStep::Failed { .. }));
    assert!(matches!(j.handle_ev(&TransportEv::Closed { conn: 6 }), JoinStep::Waiting));
}

#[test]
fn a_client_whose_only_link_drops_is_alone() {
    let port = 41000;
    let mut mesh = host_of(port, &[]);
    let bea = mesh.join(port + 1, "bea", 2);
    mesh.pump_all(20);
    mesh.kill(0);
    mesh.pump_all(50);
    let n = mesh.node(bea);
    assert_eq!(n.session.peer_count(), 1);
    assert!(n.session.kind == SessionKind::Host);
    let before = n.valley.tick;
    mesh.pump_all(20);
    assert!(mesh.node(bea).valley.tick > before);
}

#[test]
fn a_forked_world_is_noticed() {
    let port = 42000;
    let mut mesh = host_of(port, &[]);
    let bea = mesh.join(port + 1, "bea", 2);
    mesh.pump_all(40);
    // something happens in one copy of the world alone
    mesh.node(bea).valley.chat.push((0, 0, "a bug".into()));
    mesh.pump_all(100);
    assert!(mesh.node(0).session.desync_at.is_some() || mesh.node(bea).session.desync_at.is_some());
    let t = mesh.node(bea).valley.tick;
    mesh.pump_all(50);
    assert_eq!(mesh.node(bea).valley.tick, t, "a forked world stands still");
}

#[test]
fn a_null_transport_does_nothing() {
    let mut t = NullTransport::new();
    assert!(t.poll().is_empty());
    assert_eq!(t.dial("127.0.0.1:1"), None);
    t.send(1, b"x");
    t.close(1);
    assert_eq!(t.remote_ip(1), "");
    assert_eq!(t.listen_port(), 0);
    assert_eq!(t.now_ns(), 0);
    let valley = Valley::new();
    let mut s = Session::solo(valley.world(), someone(), "ada", 3, &[]);
    s.flush(&mut t);
    assert_eq!(s.my_key().len(), 32);
}

#[test]
fn settlers_come_back_to_their_base() {
    let record = |joined: bool, name: &str, key: [u8; 32]| Player { joined, name: name.to_string(), key };
    let w = World {
        tick: 7,
        players: vec![record(true, "ada", [1; 32]), record(true, "bo", [2; 32]), record(false, "", [0; 32]), record(true, "bot", [0; 32])],
    };
    let nobody = PidMap::new();
    assert_eq!(pid_for(&w, &nobody, "bo", &[2; 32]), Some(1));
    // another key does not open the base: a free slot
    assert_eq!(pid_for(&w, &nobody, "bo", &[9; 32]), Some(2));
    // a base without a key goes by its name
    assert_eq!(pid_for(&w, &nobody, "bot", &[9; 32]), Some(3));
}

#[test]
fn an_order_runs_once() {
    let mut mesh = host_of(47431, &[]);
    mesh.pump_all(5);
    mesh.node(0).session.queue(Command::Chat { text: "once".into() });
    mesh.pump_all(20);
    let said: Vec<&str> = mesh.node(0).valley.chat.iter().map(|c| c.2.as_str()).collect();
    assert_eq!(said, vec!["once"]);
}

/// A transport that writes down what it is handed.
struct Tape {
    frames: Vec<(u64, Vec<u8>)>,
    closes: Vec<u64>,
}

impl Transport for Tape {
    fn poll(&mut self) -> Vec<TransportEv> {
        Vec::new()
    }
    fn send(&mut self, conn: u64, bytes: &[u8]) {
        self.frames.push((conn, bytes.to_vec()));
    }
    fn dial(&mut self, _: &str) -> Option<u64> {
        None
    }
    fn close(&mut self, conn: u64) {
        self.closes.push(conn);
    }
    fn remote_ip(&self, _: u64) -> String {
        String::new()
    }
    fn listen_port(&self) -> u16 {
        0
    }
}

#[test]
fn what_waits_goes_onto_the_transport() {
    let (mut host, _, aconn, _) = host_with_one_client();
    let mut tape = Tape { frames: Vec::new(), closes: Vec::new() };
    // another settler knocks: alice is told of the freeze
    let hello = Msg::Hello { name: "bo".into(), color: 4, listen_port: 6001 };
    let bytes = Envelope::seal(&someone(), 1, &hello).unwrap();
    host.session.handle_ev(TransportEv::Data { conn: 2, bytes });
    host.session.leave();
    host.session.flush(&mut tape);
    assert!(tape.frames.iter().any(|(c, b)| *c == aconn && Envelope::decode(b).is_ok_and(|e| e.verify())));
    assert_eq!(tape.closes, vec![aconn]);
    // and goes once
    let n = tape.frames.len();
    host.session.flush(&mut tape);
    assert_eq!(tape.frames.len(), n);
}

#[test]
fn the_lowest_survivor_is_elected() {
    let mut mesh = host_of(47441, &["Bot Gravel".to_string()]);
    mesh.pump_all(5);
    let bea = mesh.join(47442, "bea", 2);
    let (host, me) = (mesh.node(0).session.my_pid, mesh.node(bea).session.my_pid);
    assert_eq!(mesh.node(0).session.elect_host(host), Some(me));
    assert_eq!(mesh.node(bea).session.elect_host(host), Some(me));
    assert_eq!(mesh.node(0).session.elect_host(me), Some(host));
    // a bot is never elected
    let alone = host_of(47443, &["Bot Gravel".to_string()]).node(0).session.elect_host(0);
    assert_eq!(alone, None);
}
