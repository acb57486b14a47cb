//! The links of the TCP mesh: what waits while one is dialed, the frames in its stream, and which
//! links are open.
//!
//! The sockets and the threads live outside; here is what they write, and what the bytes they
//! read come to.

use crate::protocol::{frame_reads_back, framed, read_frame, write_frame, Frame, MAX_FRAME};
use crate::ser::{le_value, take_blob};
use crate::state::ConnId;
use crate::transport::TransportEv;
use crate::webrtc::frames_view;
use vstd::prelude::*;

verus! {

// ----------------------------------------------------------------------
// Sending
// ----------------------------------------------------------------------

/// A link. Frames sent while the dial is in flight are queued; on a dead link they drop
/// silently.
#[derive(Debug)]
pub struct Link {
    /// the socket is attached
    up: bool,
    /// payloads queued before the dial completed
    queue: Vec<Vec<u8>>,
    dead: bool,
}

#[verifier::ext_equal]
pub struct LinkV {
    pub up: bool,
    pub queue: Seq<Seq<u8>>,
    pub dead: bool,
}

impl View for Link {
    type V = LinkV;

    closed spec fn view(&self) -> LinkV {
        LinkV { up: self.up, queue: frames_view(self.queue@), dead: self.dead }
    }
}

/// The frames of some payloads, one after the other.
pub open spec fn framed_all(payloads: Seq<Seq<u8>>) -> Seq<u8>
    decreases payloads.len(),
{
    if payloads.len() == 0 {
        Seq::empty()
    } else {
        framed_all(payloads.drop_last()) + framed(payloads.last())
    }
}

impl Link {
    /// A link that is up (an accepted one), or one that is being dialed.
    pub fn new(up: bool) -> (l: Link)
        ensures
            l@ == (LinkV { up, queue: Seq::empty(), dead: false }),
    {
        let l = Link { up, queue: Vec::new(), dead: false };
        proof {
            assert(l@.queue =~= Seq::empty());
        }
        l
    }

    /// Send a payload: the bytes to write, if the link is up.
    pub fn send_payload(&mut self, payload: &[u8]) -> (r: Option<Vec<u8>>)
        ensures
            old(self)@.dead ==> r is None && final(self)@ == old(self)@,
            !old(self)@.dead && old(self)@.up ==> r is Some && r->0@ == framed(payload@) && final(self)@ == old(self)@,
            !old(self)@.dead && !old(self)@.up ==> r is None && final(self)@ == (LinkV {
                queue: old(self)@.queue.push(payload@),
                ..old(self)@
            }),
    {
        if self.dead {
            return None;
        }
        if self.up {
            let mut out: Vec<u8> = Vec::new();
            write_frame(&mut out, payload);
            proof {
                assert(out@ =~= framed(payload@));
            }
            return Some(out);
        }
        self.queue.push(vstd::slice::slice_to_vec(payload));
        proof {
            assert(self@.queue =~= old(self)@.queue.push(payload@));
        }
        None
    }

    /// The dial completed: the bytes of everything queued, to be written first.
    pub fn attach(&mut self) -> (r: Vec<u8>)
        ensures
            r@ == framed_all(old(self)@.queue),
            final(self)@ == (LinkV { up: true, queue: Seq::empty(), ..old(self)@ }),
    {
        let mut out: Vec<u8> = Vec::new();
        let ghost all = frames_view(self.queue@);
        let mut i: usize = 0;
        proof {
            assert(out@ =~= framed_all(all.take(0)));
        }
        while i < self.queue.len()
            invariant
                i <= self.queue@.len(),
                *self == *old(self),
                all == frames_view(self.queue@),
                out@ == framed_all(all.take(i as int)),
            decreases self.queue@.len() - i,
        {
            proof {
                assert(all.take(i + 1).drop_last() =~= all.take(i as int));
                assert(all.take(i + 1).last() == self.queue@[i as int]@);
            }
            write_frame(&mut out, self.queue[i].as_slice());
            i = i + 1;
        }
        self.queue = Vec::new();
        self.up = true;
        proof {
            assert(all.take(i as int) =~= all);
            assert(self@.queue =~= Seq::empty());
        }
        out
    }

    /// A write failed, or the link was closed.
    pub fn kill(&mut self)
        ensures
            final(self)@ == (LinkV { dead: true, ..old(self)@ }),
    {
        self.dead = true;
    }
}

// ----------------------------------------------------------------------
// Receiving
// ----------------------------------------------------------------------

/// Does a whole frame stand at the front of the bytes?
pub open spec fn has_frame(s: Seq<u8>) -> bool {
    s.len() >= 4 && le_value(s.take(4)) <= MAX_FRAME && take_blob(s) is Some
}

/// Do the bytes announce a frame that is too large?
pub open spec fn is_broken(s: Seq<u8>) -> bool {
    s.len() >= 4 && le_value(s.take(4)) > MAX_FRAME
}

/// The whole frames at the front of the bytes, and what is left.
pub open spec fn frames_in(s: Seq<u8>) -> (Seq<Seq<u8>>, Seq<u8>)
    decreases s.len(),
{
    if has_frame(s) && (take_blob(s)->0).1.len() < s.len() {
        let (payload, rest) = take_blob(s)->0;
        let (more, left) = frames_in(rest);
        (seq![payload] + more, left)
    } else {
        (Seq::empty(), s)
    }
}

/// The receiving end of a link: the bytes that do not make a frame yet.
#[derive(Debug)]
pub struct Inlet {
    bytes: Vec<u8>,
}

impl View for Inlet {
    type V = Seq<u8>;

    closed spec fn view(&self) -> Seq<u8> {
        self.bytes@
    }
}

impl Inlet {
    pub fn new() -> (i: Inlet)
        ensures
            i@ == Seq::<u8>::empty(),
    {
        Inlet { bytes: Vec::new() }
    }

    /// Bytes arrived: the payloads of the frames that are complete now, and whether the stream
    /// can be trusted further.
    pub fn feed(&mut self, bytes: &[u8]) -> (r: (Vec<Vec<u8>>, bool))
        ensures
            ({
                let (payloads, left) = frames_in(old(self)@ + bytes@);
                frames_view(r.0@) == payloads && final(self)@ == left && r.1 == !is_broken(left)
            }),
    {
        let mut more: Vec<u8> = vstd::slice::slice_to_vec(bytes);
        self.bytes.append(&mut more);
        let ghost all = self.bytes@;
        proof {
            assert(all =~= old(self)@ + bytes@);
        }
        let mut out: Vec<Vec<u8>> = Vec::new();
        let mut at: usize = 0;
        proof {
            assert(all.skip(0) =~= all);
            assert(frames_view(out@) + frames_in(all).0 =~= frames_in(all).0);
        }
        let n: usize = self.bytes.len();
        loop
            invariant
                at <= n == self.bytes@.len(),
                self.bytes@ == all,
                frames_view(out@) + frames_in(all.skip(at as int)).0 == frames_in(all).0,
                frames_in(all.skip(at as int)).1 == frames_in(all).1,
            ensures
                at <= n,
                frames_view(out@) == frames_in(all).0,
                all.skip(at as int) == frames_in(all).1,
                n == self.bytes@.len(),
                self.bytes@ == all,
            decreases n - at,
        {
            let ghost s = all.skip(at as int);
            let ghost before = out@;
            let stream: &[u8] = vstd::slice::slice_subrange(self.bytes.as_slice(), at, n);
            proof {
                assert(stream@ =~= s);
            }
            match read_frame(stream) {
                Frame::Whole { payload, used } => {
                    let ghost pv = payload@;
                    out.push(payload);
                    proof {
                        assert(s.skip(used as int) =~= all.skip(at + used));
                        assert(frames_view(out@) =~= frames_view(before).push(pv));
                        let more = frames_in(all.skip(at + used)).0;
                        assert(frames_view(out@) + more =~= frames_view(before) + (seq![pv] + more));
                    }
                    at = at + used;
                },
                _ => {
                    proof {
                        assert(!has_frame(s));
                        assert(frames_view(out@) + frames_in(s).0 =~= frames_view(out@));
                    }
                    break;
                },
            }
        }
        self.bytes = vstd::slice::slice_to_vec(vstd::slice::slice_subrange(self.bytes.as_slice(), at, n));
        proof {
            assert(self.bytes@ =~= all.skip(at as int));
        }
        let ok: bool = match read_frame(self.bytes.as_slice()) {
            Frame::TooLarge => false,
            _ => true,
        };
        (out, ok)
    }
}

// ----------------------------------------------------------------------
// The table
// ----------------------------------------------------------------------

/// What the threads of a mesh report.
#[allow(inconsistent_fields)]
#[derive(Debug)]
pub enum News {
    /// An inbound link was accepted.
    Accepted { conn: ConnId },
    /// A dialed link finished connecting.
    Up { conn: ConnId },
    Data { conn: ConnId, bytes: Vec<u8> },
    /// The stream ended, or the dial failed.
    Down { conn: ConnId },
}

/// What the session is told of some news, by the links that are open.
pub open spec fn told_of(open: Set<ConnId>, news: News) -> Option<TransportEv> {
    match news {
        News::Accepted { conn } => Some(TransportEv::Connected { conn }),
        News::Up { conn } => Some(TransportEv::Connected { conn }),
        News::Data { conn, bytes } => Some(TransportEv::Data { conn, bytes }),
        News::Down { conn } => if open.contains(conn) {
            Some(TransportEv::Closed { conn })
        } else {
            None
        },
    }
}

/// The links that are open after some news.
pub open spec fn open_after(open: Set<ConnId>, news: News) -> Set<ConnId> {
    match news {
        News::Accepted { conn } => open.insert(conn),
        News::Down { conn } => open.remove(conn),
        _ => open,
    }
}

/// Which links of a mesh are open: those that were accepted or dialed, until they go down or are
/// closed.
#[derive(Debug)]
pub struct LinkTable {
    open: Vec<ConnId>,
}

impl View for LinkTable {
    type V = Set<ConnId>;

    closed spec fn view(&self) -> Set<ConnId> {
        self.open@.to_set()
    }
}

impl LinkTable {
    pub fn new() -> (t: LinkTable)
        ensures
            t@ == Set::<ConnId>::empty(),
    {
        let t = LinkTable { open: Vec::new() };
        proof {
            assert(t@ =~= Set::<ConnId>::empty());
        }
        t
    }

    pub fn has(&self, conn: ConnId) -> (r: bool)
        ensures
            r == self@.contains(conn),
    {
        let mut i: usize = 0;
        while i < self.open.len()
            invariant
                i <= self.open@.len(),
                forall|k: int| 0 <= k < i ==> self.open@[k] != conn,
            decreases self.open@.len() - i,
        {
            if self.open[i] == conn {
                return true;
            }
            i = i + 1;
        }
        false
    }

    /// A link was accepted, or a dial begins.
    pub fn open(&mut self, conn: ConnId)
        ensures
            final(self)@ == old(self)@.insert(conn),
    {
        let ghost before = self.open@;
        self.open.push(conn);
        proof {
            let now = self.open@;
            assert(now[before.len() as int] == conn);
            assert forall|c: ConnId| before.contains(c) implies now.contains(c) by {
                let k = choose|k: int| 0 <= k < before.len() && before[k] == c;
                assert(now[k] == c);
            }
            assert(self@ =~= old(self)@.insert(conn));
        }
    }

    /// Close a link. Tells whether it was open.
    pub fn close(&mut self, conn: ConnId) -> (was: bool)
        ensures
            was == old(self)@.contains(conn),
            final(self)@ == old(self)@.remove(conn),
    {
        let was: bool = self.has(conn);
        let mut left: Vec<ConnId> = Vec::new();
        let mut i: usize = 0;
        while i < self.open.len()
            invariant
                i <= self.open@.len(),
                self@ == old(self)@,
                forall|k: int| 0 <= k < i && self.open@[k] != conn ==> left@.contains(#[trigger] self.open@[k]),
                forall|k: int| 0 <= k < left@.len() ==> self.open@.contains(#[trigger] left@[k]) && left@[k] != conn,
            decreases self.open@.len() - i,
        {
            let c: ConnId = self.open[i];
            if c != conn {
                let ghost before = left@;
                left.push(c);
                proof {
                    assert(left@[before.len() as int] == c);
                    assert forall|k: int| 0 <= k < i && self.open@[k] != conn implies left@.contains(
                        #[trigger] self.open@[k],
                    ) by {
                        let j = choose|j: int| 0 <= j < before.len() && before[j] == self.open@[k];
                        assert(left@[j] == self.open@[k]);
                    }
                }
            }
            i = i + 1;
        }
        let ghost before = self.open@;
        self.open = left;
        proof {
            assert forall|c: ConnId| before.contains(c) && c != conn implies left@.contains(c) by {
                let k = choose|k: int| 0 <= k < before.len() && before[k] == c;
                assert(left@.contains(before[k]));
            }
            assert forall|c: ConnId| left@.contains(c) implies before.contains(c) && c != conn by {
                let k = choose|k: int| 0 <= k < left@.len() && left@[k] == c;
                assert(before.contains(left@[k]));
            }
            assert(self@ =~= old(self)@.remove(conn));
        }
        was
    }

    /// Hear what a thread reports: what the session is told of it. That a link went down is told
    /// once, and never of a link that we closed ourselves.
    pub fn hear(&mut self, news: News) -> (r: Option<TransportEv>)
        ensures
            r == told_of(old(self)@, news),
            final(self)@ == open_after(old(self)@, news),
    {
        match news {
            News::Accepted { conn } => {
                self.open(conn);
                Some(TransportEv::Connected { conn })
            },
            News::Up { conn } => Some(TransportEv::Connected { conn }),
            News::Data { conn, bytes } => Some(TransportEv::Data { conn, bytes }),
            News::Down { conn } => if self.close(conn) {
                Some(TransportEv::Closed { conn })
            } else {
                None
            },
        }
    }
}

// ----------------------------------------------------------------------
// Laws
// ----------------------------------------------------------------------

/// Does every payload fit a frame?
pub open spec fn all_fit(payloads: Seq<Seq<u8>>) -> bool {
    forall|i: int| 0 <= i < payloads.len() ==> (#[trigger] payloads[i]).len() <= MAX_FRAME
}

proof fn framed_first(payloads: Seq<Seq<u8>>)
    requires
        payloads.len() > 0,
    ensures
        framed_all(payloads) == framed(payloads[0]) + framed_all(payloads.drop_first()),
    decreases payloads.len(),
{
    let rest = payloads.drop_first();
    if payloads.len() == 1 {
        assert(payloads.drop_last() =~= Seq::<Seq<u8>>::empty());
        assert(rest =~= Seq::<Seq<u8>>::empty());
        assert(framed_all(payloads) =~= framed(payloads[0]) + framed_all(rest));
    } else {
        framed_first(payloads.drop_last());
        assert(payloads.drop_last().drop_first() =~= rest.drop_last());
        assert(framed_all(payloads) =~= framed(payloads[0]) + framed_all(rest));
    }
}

/// What one end sends, the other reads: the payloads, in their order; what stands behind them
/// is read after them.
pub proof fn streams_carry_frames(payloads: Seq<Seq<u8>>, rest: Seq<u8>)
    requires
        all_fit(payloads),
    ensures
        frames_in(framed_all(payloads) + rest) == (payloads + frames_in(rest).0, frames_in(rest).1),
    decreases payloads.len(),
{
    if payloads.len() == 0 {
        assert(framed_all(payloads) + rest =~= rest);
        assert(payloads + frames_in(rest).0 =~= frames_in(rest).0);
    } else {
        let tail = payloads.drop_first();
        assert forall|i: int| 0 <= i < tail.len() implies (#[trigger] tail[i]).len() <= MAX_FRAME by {
            assert(payloads[i + 1].len() <= MAX_FRAME);
        }
        streams_carry_frames(tail, rest);
        framed_first(payloads);
        let more = framed_all(tail) + rest;
        assert(payloads[0].len() <= MAX_FRAME);
        frame_reads_back(payloads[0], more);
        assert(framed_all(payloads) + rest =~= framed(payloads[0]) + more);
        assert(framed(payloads[0]).len() >= 4) by {
            crate::ser::le_len(payloads[0].len(), 4);
        }
        assert(payloads + frames_in(rest).0 =~= seq![payloads[0]] + (tail + frames_in(rest).0));
    }
}

proof fn front_stays(a: Seq<u8>, b: Seq<u8>)
    ensures
        a.len() >= 4 ==> (a + b).take(4) == a.take(4),
        take_blob(a) matches Some((p, rest)) ==> take_blob(a + b) == Some((p, rest + b)),
{
    if a.len() >= 4 {
        assert((a + b).take(4) =~= a.take(4));
        assert((a + b).skip(4) =~= a.skip(4) + b);
        if let Some((p, rest)) = take_blob(a) {
            let n = le_value(a.take(4)) as int;
            assert((a.skip(4) + b).take(n) =~= a.skip(4).take(n));
            assert((a.skip(4) + b).skip(n) =~= a.skip(4).skip(n) + b);
        }
    }
}

/// However a stream is cut into pieces, the frames are the same.
pub proof fn cuts_do_not_matter(a: Seq<u8>, b: Seq<u8>)
    ensures
        ({
            let (first, left) = frames_in(a);
            let (then, end) = frames_in(left + b);
            frames_in(a + b) == (first + then, end)
        }),
    decreases a.len(),
{
    let (first, left) = frames_in(a);
    let (then, end) = frames_in(left + b);
    front_stays(a, b);
    if has_frame(a) && (take_blob(a)->0).1.len() < a.len() {
        let (p, rest) = take_blob(a)->0;
        cuts_do_not_matter(rest, b);
        let (f2, l2) = frames_in(rest);
        assert(first == seq![p] + f2);
        assert(frames_in(a + b).0 =~= first + then);
    } else {
        assert(first + then =~= then);
    }
}

/// The links that are open after all of the news.
pub open spec fn open_after_all(open: Set<ConnId>, news: Seq<News>) -> Set<ConnId>
    decreases news.len(),
{
    if news.len() == 0 {
        open
    } else {
        open_after(open_after_all(open, news.drop_last()), news.last())
    }
}

/// Our own closes are not reported: from when a link is closed until one is accepted under its
/// number, no news has the session told that it closed.
pub proof fn own_closes_are_silent(open: Set<ConnId>, conn: ConnId, news: Seq<News>, i: int)
    requires
        0 <= i < news.len(),
        forall|k: int| 0 <= k < news.len() ==> #[trigger] news[k] != (News::Accepted { conn }),
    ensures
        told_of(open_after_all(open.remove(conn), news.take(i)), news[i]) != Some(TransportEv::Closed { conn }),
{
    stays_closed(open.remove(conn), conn, news.take(i));
}

/// Losses are told once: after a link went down it is not reported again, until one is accepted
/// under its number.
pub proof fn a_loss_is_told_once(open: Set<ConnId>, conn: ConnId, news: Seq<News>, i: int)
    requires
        0 <= i < news.len(),
        forall|k: int| 0 <= k < news.len() ==> #[trigger] news[k] != (News::Accepted { conn }),
    ensures
        told_of(
            open_after_all(open_after(open, News::Down { conn }), news.take(i)),
            news[i],
        ) != Some(TransportEv::Closed { conn }),
{
    stays_closed(open.remove(conn), conn, news.take(i));
}

proof fn stays_closed(open: Set<ConnId>, conn: ConnId, news: Seq<News>)
    requires
        !open.contains(conn),
        forall|k: int| 0 <= k < news.len() ==> #[trigger] news[k] != (News::Accepted { conn }),
    ensures
        !open_after_all(open, news).contains(conn),
    decreases news.len(),
{
    if news.len() > 0 {
        let front = news.drop_last();
        assert forall|k: int| 0 <= k < front.len() implies #[trigger] front[k] != (News::Accepted { conn }) by {
            assert(front[k] == news[k]);
        }
        stays_closed(open, conn, front);
        assert(news.last() == news[news.len() - 1]);
    }
}

} // verus!
