//! The rendezvous of a browser tab: browse public colonies, join one, found a new (public or
//! invite-only) colony, or enter a friend's room code to find their private world.

use crate::beacon::{code_region, is_alnum, normal_code, room_code_of, room_code_region, upper, Beacon, BeaconV};
use crate::crypto::{key_eq, PubKey, ZERO_KEY};
use crate::lobby::beacons_view;
use crate::nostr_laws::room_codes_are_well_formed;
use crate::saves::{day_of, DAY};
use crate::text::{chars_of, dec, push_dec, push_text, str_eq, string_of, text_of};
use vstd::prelude::*;

verus! {

/// How many characters a room code has, without its dash.
pub const CODE_LEN: usize = 8;

/// The code with a character typed: letters and digits count, in upper case, while there is
/// room.
pub open spec fn code_typed(code: Seq<char>, c: char) -> Seq<char> {
    if is_alnum(c) && code.len() < CODE_LEN {
        code.push(upper(c))
    } else {
        code
    }
}

pub open spec fn code_typed_all(code: Seq<char>, cs: Seq<char>) -> Seq<char>
    decreases cs.len(),
{
    if cs.len() == 0 {
        code
    } else {
        code_typed(code_typed_all(code, cs.drop_last()), cs.last())
    }
}

/// Is this the beacon of somebody else's colony?
pub open spec fn is_foreign(b: BeaconV, me: Seq<u8>) -> bool {
    b.host != me && b.host != ZERO_KEY@
}

/// Is this the host that we wait for?
pub open spec fn awaited(b: BeaconV, region: Seq<char>, me: Seq<u8>) -> bool {
    b.region == region && is_foreign(b, me)
}

/// The first host in the list that we wait for.
pub open spec fn first_awaited(bs: Seq<BeaconV>, region: Seq<char>, me: Seq<u8>) -> Option<Seq<u8>>
    decreases bs.len(),
{
    if bs.len() == 0 {
        None
    } else if awaited(bs[0], region, me) {
        Some(bs[0].host)
    } else {
        first_awaited(bs.drop_first(), region, me)
    }
}

/// What a frame of waiting comes to.
#[derive(Debug)]
pub enum Looking {
    /// nothing is awaited: show the list
    Browse,
    /// still waiting
    Wait,
    /// the host's beacon is there: dial it
    Found(PubKey),
}

#[derive(Debug)]
pub struct Rendezvous {
    /// the room code typed so far
    pub code: String,
    /// the region of the invite-only host whose beacon is awaited
    pub pending: Option<String>,
}

#[verifier::ext_equal]
pub struct RendezvousV {
    pub code: Seq<char>,
    pub pending: Option<Seq<char>>,
}

impl View for Rendezvous {
    type V = RendezvousV;

    open spec fn view(&self) -> RendezvousV {
        RendezvousV { code: self.code@, pending: crate::args::text_in(self.pending) }
    }
}

fn foreign(b: &Beacon, me: &PubKey) -> (r: bool)
    ensures
        r == is_foreign(b@, me@),
{
    !key_eq(&b.host, me) && !key_eq(&b.host, &ZERO_KEY)
}

fn to_upper(c: char) -> (r: char)
    ensures
        r == upper(c),
{
    if 'a' <= c && c <= 'z' {
        ((c as u8) - 32) as char
    } else {
        c
    }
}

impl Rendezvous {
    pub fn new() -> (r: Rendezvous)
        ensures
            r@ == (RendezvousV { code: Seq::empty(), pending: None }),
    {
        let r = Rendezvous { code: String::new(), pending: None };
        proof {
            assert(r.code@ =~= Seq::<char>::empty());
        }
        r
    }

    /// Type into the room code.
    pub fn type_code(&mut self, cs: &Vec<char>)
        ensures
            final(self)@ == (RendezvousV { code: code_typed_all(old(self)@.code, cs@), ..old(self)@ }),
    {
        let mut v: Vec<char> = chars_of(self.code.as_str());
        let mut i: usize = 0;
        while i < cs.len()
            invariant
                i <= cs@.len(),
                v@ == code_typed_all(old(self)@.code, cs@.take(i as int)),
                *self == *old(self),
            decreases cs@.len() - i,
        {
            proof {
                assert(cs@.take(i + 1).drop_last() =~= cs@.take(i as int));
            }
            let c: char = cs[i];
            let alnum: bool = ('0' <= c && c <= '9') || ('A' <= c && c <= 'Z') || ('a' <= c && c <= 'z');
            if alnum && v.len() < CODE_LEN {
                v.push(to_upper(c));
            }
            i = i + 1;
        }
        self.code = string_of(&v, 0, v.len());
        proof {
            assert(cs@.take(i as int) =~= cs@);
            assert(self.code@ =~= v@);
        }
    }

    /// Take the last character back.
    pub fn erase(&mut self)
        ensures
            final(self)@ == (RendezvousV {
                code: if old(self)@.code.len() > 0 {
                    old(self)@.code.drop_last()
                } else {
                    old(self)@.code
                },
                ..old(self)@
            }),
    {
        crate::chat::erase_char(&mut self.code);
    }

    /// Wait no longer: the player gave up, or the host refused or did not answer.
    pub fn cancel(&mut self)
        ensures
            final(self)@ == (RendezvousV { pending: None, ..old(self)@ }),
    {
        self.pending = None;
    }

    /// The code is the meeting place: wait for the host's beacon under the region derived from
    /// it. (The caller watches the code.)
    pub fn enter_code(&mut self)
        ensures
            final(self)@ == (RendezvousV { pending: Some(code_region(old(self)@.code)), ..old(self)@ }),
    {
        self.pending = Some(room_code_region(self.code.as_str()));
    }

    /// Look for the awaited host among the live regions. Once the time is up, nothing is awaited
    /// any more.
    pub fn look(&mut self, expired: bool, regions: &Vec<Beacon>, me: &PubKey) -> (r: Looking)
        ensures
            match old(self)@.pending {
                None => r is Browse && final(self)@ == old(self)@,
                Some(region) => if expired {
                    r is Browse && final(self)@ == (RendezvousV { pending: None, ..old(self)@ })
                } else {
                    final(self)@ == old(self)@ && match first_awaited(beacons_view(regions@), region, me@) {
                        Some(host) => r matches Looking::Found(k) && k@ == host,
                        None => r is Wait,
                    }
                },
            },
    {
        if self.pending.is_none() {
            return Looking::Browse;
        }
        if expired {
            self.pending = None;
            return Looking::Browse;
        }
        match &self.pending {
            Some(region) => {
                let ghost bs = beacons_view(regions@);
                let mut i: usize = 0;
                proof {
                    assert(bs.skip(0) =~= bs);
                }
                while i < regions.len()
                    invariant
                        i <= regions@.len(),
                        !expired,
                        bs == beacons_view(regions@),
                        self.pending == Some(*region),
                        *self == *old(self),
                        first_awaited(bs.skip(i as int), region@, me@) == first_awaited(bs, region@, me@),
                    decreases regions@.len() - i,
                {
                    proof {
                        assert(bs.skip(i as int).drop_first() =~= bs.skip(i + 1));
                        assert(bs[i as int] == regions@[i as int]@);
                    }
                    if str_eq(regions[i].region.as_str(), region.as_str()) && foreign(&regions[i], me) {
                        return Looking::Found(regions[i].host);
                    }
                    i = i + 1;
                }
                Looking::Wait
            },
            None => Looking::Browse,
        }
    }
}

// ----------------------------------------------------------------------
// The list
// ----------------------------------------------------------------------

/// Is the host among the first `n` beacons that are listed?
pub open spec fn host_listed(bs: Seq<BeaconV>, rows: Seq<nat>, host: Seq<u8>) -> bool {
    exists|i: int| 0 <= i < rows.len() && bs[(#[trigger] rows[i]) as int].host == host
}

/// The colonies that are listed, by their place among the first `n` beacons: public ones, not
/// our own, each host once.
pub open spec fn listed(bs: Seq<BeaconV>, n: nat, me: Seq<u8>) -> Seq<nat>
    decreases n,
{
    if n == 0 {
        Seq::empty()
    } else {
        let head = listed(bs, (n - 1) as nat, me);
        let b = bs[n - 1];
        if !b.private && is_foreign(b, me) && !host_listed(bs, head, b.host) {
            head.push((n - 1) as nat)
        } else {
            head
        }
    }
}

fn is_listed(regions: &Vec<Beacon>, rows: &Vec<usize>, host: &PubKey) -> (r: bool)
    requires
        forall|i: int| 0 <= i < rows@.len() ==> (#[trigger] rows@[i]) < regions@.len(),
    ensures
        r == host_listed(beacons_view(regions@), rows@.map_values(|x: usize| x as nat), host@),
{
    let ghost rs = rows@.map_values(|x: usize| x as nat);
    let ghost bs = beacons_view(regions@);
    let mut i: usize = 0;
    while i < rows.len()
        invariant
            i <= rows@.len(),
            rs == rows@.map_values(|x: usize| x as nat),
            bs == beacons_view(regions@),
            forall|k: int| 0 <= k < rows@.len() ==> (#[trigger] rows@[k]) < regions@.len(),
            forall|k: int| 0 <= k < i ==> bs[(#[trigger] rs[k]) as int].host != host@,
        decreases rows@.len() - i,
    {
        proof {
            assert(rs[i as int] == rows@[i as int]);
            assert(bs[rows@[i as int] as int] == regions@[rows@[i as int] as int]@);
        }
        if key_eq(&regions[rows[i]].host, host) {
            proof {
                assert(bs[rs[i as int] as int].host == host@);
            }
            return true;
        }
        i = i + 1;
    }
    false
}

/// The colonies that are listed, by their place among the live regions.
pub fn public_rows(regions: &Vec<Beacon>, me: &PubKey) -> (r: Vec<usize>)
    ensures
        r@.map_values(|x: usize| x as nat) == listed(beacons_view(regions@), regions@.len(), me@),
        forall|i: int| 0 <= i < r@.len() ==> (#[trigger] r@[i]) < regions@.len(),
{
    let ghost bs = beacons_view(regions@);
    let mut rows: Vec<usize> = Vec::new();
    let mut i: usize = 0;
    proof {
        assert(rows@.map_values(|x: usize| x as nat) =~= listed(bs, 0, me@));
    }
    while i < regions.len()
        invariant
            i <= regions@.len(),
            bs == beacons_view(regions@),
            rows@.map_values(|x: usize| x as nat) == listed(bs, i as nat, me@),
            forall|k: int| 0 <= k < rows@.len() ==> (#[trigger] rows@[k]) < i,
        decreases regions@.len() - i,
    {
        let ghost before = rows@;
        proof {
            assert(bs[i as int] == regions@[i as int]@);
        }
        if !regions[i].private && foreign(&regions[i], me) && !is_listed(regions, &rows, &regions[i].host) {
            rows.push(i);
            proof {
                assert(rows@.map_values(|x: usize| x as nat) =~= before.map_values(|x: usize| x as nat).push(i as nat));
            }
        }
        i = i + 1;
    }
    rows
}

/// The two lines of a colony in the list.
pub open spec fn row_title(b: BeaconV) -> Seq<char> {
    (if b.controller_name.len() == 0 {
        "a colony"@
    } else {
        b.controller_name
    }) + "  ·  Sector "@ + b.region
}

pub open spec fn row_sub(b: BeaconV) -> Seq<char> {
    dec(b.players as nat) + (if b.players == 1 {
        " player  ·  day "@
    } else {
        " players  ·  day "@
    }) + dec(day_of(b.tick))
}

/// The two lines of a colony in the list.
pub fn row_text(b: &Beacon) -> (r: (String, String))
    ensures
        r.0@ == row_title(b@),
        r.1@ == row_sub(b@),
{
    let named: Vec<char> = chars_of(b.controller_name.as_str());
    let mut title: String = if named.len() == 0 { text_of("a colony") } else { b.controller_name.clone() };
    push_text(&mut title, "  ·  Sector ");
    push_text(&mut title, b.region.as_str());
    let mut sub = String::new();
    push_dec(&mut sub, b.players as u64);
    push_text(&mut sub, if b.players == 1 { " player  ·  day " } else { " players  ·  day " });
    push_dec(&mut sub, (b.tick / DAY) as u64 + 1);
    proof {
        assert(sub@ =~= row_sub(b@));
    }
    (title, sub)
}

// ----------------------------------------------------------------------
// Laws
// ----------------------------------------------------------------------

proof fn listed_are_foreign(bs: Seq<BeaconV>, n: nat, me: Seq<u8>)
    requires
        n <= bs.len(),
    ensures
        forall|i: int|
            0 <= i < listed(bs, n, me).len() ==> (#[trigger] listed(bs, n, me)[i]) < n && !bs[listed(bs, n, me)[i] as int].private
                && is_foreign(bs[listed(bs, n, me)[i] as int], me),
        forall|i: int, j: int|
            0 <= i < j < listed(bs, n, me).len() ==> bs[(#[trigger] listed(bs, n, me)[i]) as int].host != bs[(
            #[trigger] listed(bs, n, me)[j]) as int].host,
    decreases n,
{
    if n > 0 {
        listed_are_foreign(bs, (n - 1) as nat, me);
        let head = listed(bs, (n - 1) as nat, me);
        let all = listed(bs, n, me);
        assert forall|i: int, j: int| 0 <= i < j < all.len() implies bs[(#[trigger] all[i]) as int].host != bs[(
        #[trigger] all[j]) as int].host by {
            assert(all[i] == head[i]);
            if j < head.len() {
                assert(all[j] == head[j]);
            } else {
                assert(bs[head[i] as int].host != bs[n - 1].host);
            }
        }
    }
}

/// An invite-only colony is never listed, nor our own; and no host is listed twice.
pub proof fn the_list_is_public(bs: Seq<BeaconV>, me: Seq<u8>)
    ensures
        ({
            let rows = listed(bs, bs.len(), me);
            &&& forall|i: int|
                0 <= i < rows.len() ==> (#[trigger] rows[i]) < bs.len() && !bs[rows[i] as int].private && bs[rows[i] as int].host
                    != me
            &&& forall|i: int, j: int|
                0 <= i < j < rows.len() ==> bs[(#[trigger] rows[i]) as int].host != bs[(#[trigger] rows[j]) as int].host
        }),
{
    listed_are_foreign(bs, bs.len(), me);
}

/// What is typed never outgrows a room code.
pub proof fn codes_fit(code: Seq<char>, cs: Seq<char>)
    requires
        code.len() <= CODE_LEN,
    ensures
        code_typed_all(code, cs).len() <= CODE_LEN,
    decreases cs.len(),
{
    if cs.len() > 0 {
        codes_fit(code, cs.drop_last());
    }
}

proof fn typed_is_normal(cs: Seq<char>)
    requires
        normal_code(cs).len() <= CODE_LEN,
    ensures
        code_typed_all(Seq::empty(), cs) == normal_code(cs),
    decreases cs.len(),
{
    if cs.len() > 0 {
        typed_is_normal(cs.drop_last());
    }
}

proof fn normal_is_stable(s: Seq<char>)
    ensures
        normal_code(normal_code(s)) == normal_code(s),
    decreases s.len(),
{
    if s.len() > 0 {
        normal_is_stable(s.drop_last());
        if is_alnum(s.last()) {
            let c = upper(s.last());
            letters_stay(s.last());
            assert(normal_code(s.drop_last()).push(c).drop_last() =~= normal_code(s.drop_last()));
        }
    }
}

proof fn letters_stay(c: char)
    ensures
        is_alnum(c) ==> is_alnum(upper(c)),
        upper(upper(c)) == upper(c),
{
}

proof fn normal_len(s: Seq<char>, dash: int)
    requires
        0 <= dash < s.len(),
        s[dash] == '-',
    ensures
        normal_code(s).len() < s.len(),
    decreases s.len(),
{
    if dash < s.len() - 1 {
        normal_len(s.drop_last(), dash);
    } else {
        normal_at_most(s.drop_last());
    }
}

proof fn normal_at_most(s: Seq<char>)
    ensures
        normal_code(s).len() <= s.len(),
    decreases s.len(),
{
    if s.len() > 0 {
        normal_at_most(s.drop_last());
    }
}

/// A friend who types a host's room code, dash and all, waits for that host's private region.
pub proof fn a_typed_code_leads_to_its_host(host: Seq<u8>)
    ensures
        code_region(code_typed_all(Seq::empty(), room_code_of(host))) == code_region(room_code_of(host)),
{
    let code = room_code_of(host);
    room_codes_are_well_formed(host);
    assert(code.len() == 9 && code[4] == '-');
    normal_len(code, 4);
    typed_is_normal(code);
    normal_is_stable(code);
}

} // verus!
