//! The command bar on the right: where its buttons are, what a click on it hits, and what it
//! says. All places are in pixels from its upper left corner.

use crate::json::texts;
use crate::kinds::{build_tab_of, tab, unit_tab_of, Kind};
use crate::text::{chars_of, dec, push_dec, push_text, string_of, text_of};
use vstd::prelude::*;

verus! {

pub const SIDEBAR_W: i32 = 176;

/// The width and the height of the small map.
pub const MINI: i32 = 160;

pub const BTN_W: i32 = 80;

pub const BTN_H: i32 = 46;

/// From one row of buttons to the next.
pub const BTN_PITCH: i32 = 50;

// ----------------------------------------------------------------------
// Places
// ----------------------------------------------------------------------

#[derive(Clone, Copy, Debug, PartialEq, Eq, Structural)]
pub struct Area {
    pub x: i32,
    pub y: i32,
    pub w: i32,
    pub h: i32,
}

/// The whole pixels around a position, which need not be a whole pixel itself: rounded down, and
/// rounded up.
#[derive(Clone, Copy, Debug, PartialEq, Eq, Structural)]
pub struct Place {
    pub x0: i32,
    pub x1: i32,
    pub y0: i32,
    pub y1: i32,
}

impl Place {
    pub open spec fn wf(self) -> bool {
        self.x0 <= self.x1 <= self.x0 + 1 && self.y0 <= self.y1 <= self.y0 + 1
    }
}

/// Does a position lie in an area? The border belongs to it.
pub open spec fn in_area(a: Area, p: Place) -> bool {
    a.x <= p.x0 && p.x1 <= a.x + a.w && a.y <= p.y0 && p.y1 <= a.y + a.h
}

fn contains(a: &Area, p: &Place) -> (r: bool)
    requires
        a.x + a.w <= i32::MAX,
        a.y + a.h <= i32::MAX,
        a.x + a.w >= i32::MIN,
        a.y + a.h >= i32::MIN,
    ensures
        r == in_area(*a, *p),
{
    a.x <= p.x0 && p.x1 <= a.x + a.w && a.y <= p.y0 && p.y1 <= a.y + a.h
}

/// Where the tabs begin: below the small map, the credits and the stocks, and for a settler the
/// power bar and the count of units.
pub open spec fn header_of(joined: bool) -> int {
    8 + MINI + 10 + 22 + 18 + if joined {
        15int + 18
    } else {
        0
    }
}

/// Where the tabs begin.
pub fn header(joined: bool) -> (y: i32)
    ensures
        y == header_of(joined),
{
    if joined {
        8 + MINI + 10 + 22 + 18 + 15 + 18
    } else {
        8 + MINI + 10 + 22 + 18
    }
}

pub open spec fn tab_area(units: bool, joined: bool) -> Area {
    Area {
        x: if units {
            88
        } else {
            4
        },
        y: header_of(joined) as i32,
        w: 80,
        h: 22,
    }
}

/// The tab of the buildings, or of the units.
pub fn tab_rect(units: bool, joined: bool) -> (a: Area)
    ensures
        a == tab_area(units, joined),
{
    Area {
        x: if units {
            88
        } else {
            4
        },
        y: header(joined),
        w: 80,
        h: 22,
    }
}

pub open spec fn button_area(i: int, joined: bool) -> Area {
    Area {
        x: (4 + (i % 2) * 84) as i32,
        y: (header_of(joined) + 28 + (i / 2) * BTN_PITCH) as i32,
        w: BTN_W,
        h: BTN_H,
    }
}

/// Does the button at a place stand where a pixel can be counted?
pub open spec fn countable(i: int, joined: bool) -> bool {
    header_of(joined) + 28 + (i / 2) * BTN_PITCH <= i32::MAX
}

/// The button at a place of the open tab: two columns.
pub fn button_rect(i: usize, joined: bool) -> (a: Area)
    requires
        countable(i as int, joined),
    ensures
        a == button_area(i as int, joined),
{
    Area {
        x: 4 + (i % 2) as i32 * 84,
        y: header(joined) + 28 + (i / 2) as i32 * BTN_PITCH,
        w: BTN_W,
        h: BTN_H,
    }
}

// ----------------------------------------------------------------------
// Clicks
// ----------------------------------------------------------------------

/// What a click hits.
#[derive(Clone, Copy, Debug, PartialEq, Eq, Structural)]
pub enum SidebarHit {
    /// the field
    Outside,
    /// the sidebar, but nothing on it
    Nothing,
    Tab { units: bool },
    Button { kind: Kind },
}

pub open spec fn open_tab(units: bool) -> Seq<Kind> {
    if units {
        unit_tab_of()
    } else {
        build_tab_of()
    }
}

/// The first button from `i` on that a position lies in.
pub open spec fn button_at(ks: Seq<Kind>, joined: bool, p: Place, i: int) -> SidebarHit
    decreases ks.len() - i,
{
    if i >= ks.len() {
        SidebarHit::Nothing
    } else if in_area(button_area(i, joined), p) {
        SidebarHit::Button { kind: ks[i] }
    } else {
        button_at(ks, joined, p, i + 1)
    }
}

pub open spec fn hit_of(units_tab: bool, joined: bool, p: Place) -> SidebarHit {
    if p.x0 < 0 {
        SidebarHit::Outside
    } else if in_area(tab_area(false, joined), p) {
        SidebarHit::Tab { units: false }
    } else if in_area(tab_area(true, joined), p) {
        SidebarHit::Tab { units: true }
    } else {
        button_at(open_tab(units_tab), joined, p, 0)
    }
}

/// What a click hits; a click on a tab opens it.
pub fn click_sidebar(units_tab: &mut bool, joined: bool, p: Place) -> (hit: SidebarHit)
    ensures
        hit == hit_of(*old(units_tab), joined, p),
        *final(units_tab) == (match hit {
            SidebarHit::Tab { units } => units,
            _ => *old(units_tab),
        }),
{
    if p.x0 < 0 {
        return SidebarHit::Outside;
    }
    if contains(&tab_rect(false, joined), &p) {
        *units_tab = false;
        return SidebarHit::Tab { units: false };
    }
    if contains(&tab_rect(true, joined), &p) {
        *units_tab = true;
        return SidebarHit::Tab { units: true };
    }
    let ks: Vec<Kind> = tab(*units_tab);
    let mut i: usize = 0;
    while i < ks.len()
        invariant
            i <= ks@.len(),
            ks@.len() < 1000,
            ks@ == open_tab(*units_tab),
            *units_tab == *old(units_tab),
            hit_of(*units_tab, joined, p) == button_at(ks@, joined, p, i as int),
        decreases ks@.len() - i,
    {
        let a: Area = button_rect(i, joined);
        if contains(&a, &p) {
            return SidebarHit::Button { kind: ks[i] };
        }
        i = i + 1;
    }
    SidebarHit::Nothing
}

// ----------------------------------------------------------------------
// Words
// ----------------------------------------------------------------------

pub open spec fn blanks(n: int) -> Seq<char> {
    Seq::new(
        (if n < 0 {
            0
        } else {
            n
        }) as nat,
        |i: int| ' ',
    )
}

fn push_blanks(s: &mut String, n: usize)
    ensures
        final(s)@ == old(s)@ + blanks(n as int),
{
    let mut i: usize = 0;
    while i < n
        invariant
            i <= n,
            s@ == old(s)@ + blanks(i as int),
        decreases n - i,
    {
        s.push(' ');
        proof {
            assert(s@ =~= old(s)@ + blanks(i + 1));
        }
        i = i + 1;
    }
    proof {
        assert(s@ =~= old(s)@ + blanks(n as int));
    }
}

/// A number in a column: as wide as `n` characters at least, to the right.
pub open spec fn right(v: nat, n: int) -> Seq<char> {
    blanks(n - dec(v).len()) + dec(v)
}

fn push_right(s: &mut String, v: u64, n: usize)
    ensures
        final(s)@ == old(s)@ + right(v as nat, n as int),
{
    let mut d: String = String::new();
    push_dec(&mut d, v);
    proof {
        assert(d@ =~= dec(v as nat));
    }
    let len: usize = chars_of(&d).len();
    if len < n {
        push_blanks(s, n - len);
    }
    let ghost mid = s@;
    push_text(s, &d);
    proof {
        assert(mid =~= old(s)@ + blanks(n - dec(v as nat).len()));
        assert(s@ =~= old(s)@ + right(v as nat, n as int));
    }
}

pub open spec fn stock_of(label: Seq<char>, v: u32, n: int) -> Seq<char> {
    label + right(v as nat, n)
}

/// A stock in its column: a label and a number.
pub fn stock_text(label: &str, v: u32, n: usize) -> (r: String)
    ensures
        r@ == stock_of(label@, v, n as int),
{
    let mut s: String = text_of(label);
    push_right(&mut s, v as u64, n);
    s
}

/// What the credits line shows while the number rolls from one value to the next: never less than
/// nothing, and never far beyond what there is.
pub open spec fn credits_of(shown: int, credits: u32) -> int {
    if shown < 0 {
        0
    } else if shown > credits + 999 {
        credits + 999
    } else {
        shown
    }
}

/// The credits line.
pub fn credits_text(shown: i64, credits: u32) -> (r: String)
    ensures
        r@ == "$ "@ + right(credits_of(shown as int, credits) as nat, 7),
{
    let n: i64 = if shown < 0 {
        0
    } else if shown > credits as i64 + 999 {
        credits as i64 + 999
    } else {
        shown
    };
    let mut s: String = text_of("$ ");
    push_right(&mut s, n as u64, 7);
    s
}

/// The count of units and the day: a day is ten minutes.
pub open spec fn units_of(count: u32, cap: u32, tick: u32) -> Seq<char> {
    "units "@ + right(count as nat, 2) + "/"@ + dec(cap as nat) + blanks(2 - dec(cap as nat).len()) + "   day "@ + dec(
        (tick / 6000 + 1) as nat,
    )
}

/// The line below the power bar.
pub fn units_text(count: u32, cap: u32, tick: u32) -> (r: String)
    ensures
        r@ == units_of(count, cap, tick),
{
    let mut s: String = text_of("units ");
    push_right(&mut s, count as u64, 2);
    push_text(&mut s, "/");
    let mut d: String = String::new();
    push_dec(&mut d, cap as u64);
    proof {
        assert(d@ =~= dec(cap as nat));
    }
    push_text(&mut s, &d);
    let len: usize = chars_of(&d).len();
    let ghost mid = s@;
    if len < 2 {
        push_blanks(&mut s, 2 - len);
    }
    proof {
        assert(s@ =~= mid + blanks(2 - dec(cap as nat).len()));
    }
    push_text(&mut s, "   day ");
    push_dec(&mut s, (tick / 6000 + 1) as u64);
    s
}

/// What is told of a kind.
#[derive(Clone, Copy, Debug, PartialEq, Eq, Structural)]
pub struct Stats {
    pub max_hp: u32,
    pub damage: u32,
    pub range: u32,
    /// what it makes, or, below zero, uses
    pub power: i32,
    /// in ticks
    pub build_time: u32,
}

/// Tenths of a second, in seconds: a half counts as one.
pub open spec fn seconds_of(ticks: u32) -> int {
    (ticks + 5) / 10
}

pub open spec fn signed(n: int) -> Seq<char> {
    if n < 0 {
        "-"@ + dec((-n) as nat)
    } else {
        "+"@ + dec(n as nat)
    }
}

/// The line of numbers in the tooltip: what shoots tells its damage, what does not its power.
pub open spec fn stats_of(s: Stats) -> Seq<char> {
    "HP "@ + dec(s.max_hp as nat) + (if s.damage > 0 {
        "   DMG "@ + dec(s.damage as nat) + " (rng "@ + dec(s.range as nat) + ")"@
    } else if s.power != 0 {
        "   PWR "@ + signed(s.power as int)
    } else {
        Seq::empty()
    }) + "   "@ + dec(seconds_of(s.build_time) as nat) + "s"@
}

/// The line of numbers in the tooltip.
pub fn stats_text(k: Stats) -> (r: String)
    ensures
        r@ == stats_of(k),
{
    let mut s: String = text_of("HP ");
    push_dec(&mut s, k.max_hp as u64);
    let ghost head = s@;
    if k.damage > 0 {
        push_text(&mut s, "   DMG ");
        push_dec(&mut s, k.damage as u64);
        push_text(&mut s, " (rng ");
        push_dec(&mut s, k.range as u64);
        push_text(&mut s, ")");
        proof {
            assert(s@ =~= head + ("   DMG "@ + dec(k.damage as nat) + " (rng "@ + dec(k.range as nat) + ")"@));
        }
    } else if k.power != 0 {
        push_text(&mut s, "   PWR ");
        if k.power < 0 {
            push_text(&mut s, "-");
            push_dec(&mut s, (-(k.power as i64)) as u64);
        } else {
            push_text(&mut s, "+");
            push_dec(&mut s, k.power as u64);
        }
        proof {
            assert(s@ =~= head + ("   PWR "@ + signed(k.power as int)));
        }
    } else {
        proof {
            assert(s@ =~= head + Seq::<char>::empty());
        }
    }
    push_text(&mut s, "   ");
    push_dec(&mut s, (k.build_time as u64 + 5) / 10);
    push_text(&mut s, "s");
    s
}

/// The length of the longest prefix for which there is room, and room for every shorter one.
pub open spec fn room(fits: Seq<bool>) -> nat
    decreases fits.len(),
{
    if fits.len() > 0 && fits[0] {
        1 + room(fits.drop_first())
    } else {
        0
    }
}

pub open spec fn fit_of(t: Seq<char>, whole: bool, fits: Seq<bool>) -> Seq<char> {
    if whole {
        t
    } else if room(fits) < t.len() {
        t.take(room(fits) as int) + ".."@
    } else {
        t + ".."@
    }
}

/// A name as far as there is room for it. `whole` tells whether there is room for all of it,
/// `fits` of each prefix (the first character, the first two and so on) whether there is room for
/// it with two dots behind.
pub fn fit(t: &str, whole: bool, fits: &Vec<bool>) -> (r: String)
    ensures
        r@ == fit_of(t@, whole, fits@),
{
    let v: Vec<char> = chars_of(t);
    if whole {
        let s: String = string_of(&v, 0, v.len());
        proof {
            assert(s@ =~= t@);
        }
        return s;
    }
    let mut n: usize = 0;
    proof {
        assert(fits@.skip(0) =~= fits@);
    }
    while n < fits.len() && fits[n]
        invariant
            n <= fits@.len(),
            room(fits@) == n + room(fits@.skip(n as int)),
        decreases fits@.len() - n,
    {
        proof {
            assert(fits@.skip(n as int).drop_first() =~= fits@.skip(n + 1));
        }
        n = n + 1;
    }
    proof {
        assert(room(fits@.skip(n as int)) == 0);
    }
    let m: usize = if n < v.len() {
        n
    } else {
        v.len()
    };
    let mut s: String = string_of(&v, 0, m);
    proof {
        if room(fits@) < t@.len() {
            assert(s@ =~= t@.take(room(fits@) as int));
        } else {
            assert(s@ =~= t@);
        }
    }
    push_text(&mut s, "..");
    s
}

// ----------------------------------------------------------------------
// Lines
// ----------------------------------------------------------------------

/// A text that is broken into lines, word by word.
#[derive(Debug)]
pub struct Wrap {
    lines: Vec<String>,
    cur: String,
}

#[verifier::ext_equal]
pub ghost struct WrapV {
    pub lines: Seq<Seq<char>>,
    pub cur: Seq<char>,
}

impl View for Wrap {
    type V = WrapV;

    closed spec fn view(&self) -> WrapV {
        WrapV { lines: texts(self.lines@), cur: self.cur@ }
    }
}

/// The line with one more word on it.
pub open spec fn trial_of(w: WrapV, word: Seq<char>) -> Seq<char> {
    if w.cur.len() == 0 {
        word
    } else {
        w.cur + " "@ + word
    }
}

/// A word is placed: on the line where it is not too long with it, or on a line of its own.
pub open spec fn placed(w: WrapV, word: Seq<char>, too_long: bool) -> WrapV {
    if too_long && w.cur.len() > 0 {
        WrapV { lines: w.lines.push(w.cur), cur: word }
    } else {
        WrapV { cur: trial_of(w, word), ..w }
    }
}

/// The lines, once all words are placed.
pub open spec fn lines_of(w: WrapV) -> Seq<Seq<char>> {
    if w.cur.len() > 0 {
        w.lines.push(w.cur)
    } else {
        w.lines
    }
}

impl Wrap {
    pub fn new() -> (w: Wrap)
        ensures
            w@ == (WrapV { lines: Seq::empty(), cur: Seq::empty() }),
    {
        let w = Wrap { lines: Vec::new(), cur: String::new() };
        proof {
            assert(w@.lines =~= Seq::<Seq<char>>::empty());
            assert(w@.cur =~= Seq::<char>::empty());
        }
        w
    }

    fn empty(&self) -> (r: bool)
        ensures
            r == (self@.cur.len() == 0),
    {
        chars_of(&self.cur).len() == 0
    }

    /// The line with one more word on it: what is to be measured.
    pub fn trial(&self, word: &str) -> (r: String)
        ensures
            r@ == trial_of(self@, word@),
    {
        if self.empty() {
            return text_of(word);
        }
        let mut s: String = text_of(&self.cur);
        push_text(&mut s, " ");
        push_text(&mut s, word);
        s
    }

    /// Place the next word, given whether the line would be too long with it.
    pub fn place(&mut self, word: &str, too_long: bool)
        ensures
            final(self)@ == placed(old(self)@, word@, too_long),
    {
        if too_long && !self.empty() {
            let done: String = text_of(&self.cur);
            self.lines.push(done);
            self.cur = text_of(word);
            proof {
                assert(self@.lines =~= old(self)@.lines.push(old(self)@.cur));
            }
        } else {
            self.cur = self.trial(word);
        }
    }

    /// The lines.
    pub fn finish(self) -> (r: Vec<String>)
        ensures
            texts(r@) == lines_of(self@),
    {
        let empty: bool = self.empty();
        let ghost v = self@;
        let mut r: Vec<String> = self.lines;
        if !empty {
            r.push(self.cur);
        }
        proof {
            assert(texts(r@) =~= lines_of(v));
        }
        r
    }
}

// ----------------------------------------------------------------------
// Laws
// ----------------------------------------------------------------------

proof fn buttons_apart(i: int, j: int, joined: bool, p: Place)
    requires
        0 <= i,
        0 <= j,
        countable(i, joined),
        countable(j, joined),
        p.wf(),
        in_area(button_area(i, joined), p),
        in_area(button_area(j, joined), p),
    ensures
        i == j,
{
    assert(i / 2 == j / 2);
    assert(i % 2 == j % 2);
}

proof fn first_button(ks: Seq<Kind>, joined: bool, p: Place, i: int, from: int)
    requires
        0 <= from <= i < ks.len(),
        countable(i, joined),
        p.wf(),
        in_area(button_area(i, joined), p),
    ensures
        button_at(ks, joined, p, from) == (SidebarHit::Button { kind: ks[i] }),
    decreases i - from,
{
    if in_area(button_area(from, joined), p) {
        buttons_apart(from, i, joined, p);
    } else {
        first_button(ks, joined, p, i, from + 1);
    }
}

/// A click on a button hits that button: what is drawn and what is clicked are the same place, no
/// two buttons overlap, and no tab lies over a button.
pub proof fn clicks_hit_their_button(units_tab: bool, joined: bool, i: int, p: Place)
    requires
        p.wf(),
        0 <= i < open_tab(units_tab).len(),
        in_area(button_area(i, joined), p),
    ensures
        hit_of(units_tab, joined, p) == (SidebarHit::Button { kind: open_tab(units_tab)[i] }),
{
    first_button(open_tab(units_tab), joined, p, i, 0);
}

/// Buttons and tabs lie inside the bar.
pub proof fn buttons_are_on_the_bar(i: int, units: bool, joined: bool)
    requires
        0 <= i,
    ensures
        0 <= button_area(i, joined).x,
        button_area(i, joined).x + BTN_W <= SIDEBAR_W,
        0 <= tab_area(units, joined).x,
        tab_area(units, joined).x + tab_area(units, joined).w <= SIDEBAR_W,
{
}

/// Words with blanks between them.
pub open spec fn sentence(ws: Seq<Seq<char>>) -> Seq<char>
    decreases ws.len(),
{
    if ws.len() == 0 {
        Seq::empty()
    } else if ws.len() == 1 {
        ws[0]
    } else {
        sentence(ws.drop_last()) + " "@ + ws.last()
    }
}

/// Placing a word breaks the text, but loses none of it: the lines read as the same sentence.
pub proof fn wrapping_loses_nothing(w: WrapV, word: Seq<char>, too_long: bool)
    requires
        word.len() > 0,
    ensures
        sentence(lines_of(placed(w, word, too_long))) == (if lines_of(w).len() == 0 {
            word
        } else {
            sentence(lines_of(w)) + " "@ + word
        }),
{
    let ls = lines_of(placed(w, word, too_long));
    if too_long && w.cur.len() > 0 {
        assert(ls.drop_last() =~= lines_of(w));
        assert(ls.last() == word);
    } else {
        assert(ls.drop_last() =~= w.lines);
        if w.cur.len() > 0 {
            assert(lines_of(w).drop_last() =~= w.lines);
            if w.lines.len() == 0 {
                assert(sentence(lines_of(w)) == w.cur);
            } else {
                assert(sentence(lines_of(w)) == sentence(w.lines) + " "@ + w.cur);
                assert(sentence(ls) =~= sentence(w.lines) + " "@ + w.cur + " "@ + word);
            }
        }
    }
}

} // verus!
