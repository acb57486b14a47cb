//! What the player is told: the report on returning, the end of a colony, the chat window.

use crate::saves::{day_of, DAY};
use crate::text::{dec, line, push_dec, push_text, text_of};
use vstd::prelude::*;

verus! {

/// Ticks of a second.
pub const TICK_HZ: u32 = 10;

/// What a settlement went through while its player was away.
#[derive(Debug)]
pub struct AwayLog {
    pub from_tick: u32,
    pub credits_gained: u32,
    pub credits_lost: u32,
    pub buildings_lost: u32,
    pub units_lost: u32,
    pub attacks: u32,
    /// the last raider's name, if it is known and not empty
    pub raider: Option<String>,
}

/// How a line of a report is coloured.
#[derive(Clone, Copy, Debug, PartialEq, Eq, Structural)]
pub enum Tone {
    Plain,
    Good,
    Bad,
}

/// A real absence is worth a report: half a minute and more, if anything happened.
pub open spec fn away_report_due(tick: u32, from_tick: u32, eventful: bool) -> bool {
    tick - from_tick > 300 && eventful
}

/// Is a report due?
pub fn report_due(tick: u32, from_tick: u32, eventful: bool) -> (r: bool)
    ensures
        r == away_report_due(tick, from_tick, eventful),
{
    tick > from_tick && tick - from_tick > 300 && eventful
}

/// A duration in words: hours and minutes, minutes and seconds, or seconds.
pub open spec fn duration_of(secs: nat) -> Seq<char> {
    if secs >= 3600 {
        dec(secs / 3600) + "h "@ + dec((secs % 3600) / 60) + "m"@
    } else if secs >= 60 {
        dec(secs / 60) + "m "@ + dec(secs % 60) + "s"@
    } else {
        dec(secs) + "s"@
    }
}

/// A duration in words.
pub fn duration(secs: u32) -> (r: String)
    ensures
        r@ == duration_of(secs as nat),
{
    let mut s = String::new();
    if secs >= 3600 {
        push_dec(&mut s, (secs / 3600) as u64);
        push_text(&mut s, "h ");
        push_dec(&mut s, ((secs % 3600) / 60) as u64);
        push_text(&mut s, "m");
    } else if secs >= 60 {
        push_dec(&mut s, (secs / 60) as u64);
        push_text(&mut s, "m ");
        push_dec(&mut s, (secs % 60) as u64);
        push_text(&mut s, "s");
    } else {
        push_dec(&mut s, secs as u64);
        push_text(&mut s, "s");
    }
    proof {
        assert(s@ =~= duration_of(secs as nat));
    }
    s
}

/// How long the player was away, in seconds.
pub open spec fn away_secs(from_tick: u32, tick: u32) -> nat {
    if tick >= from_tick {
        ((tick - from_tick) / TICK_HZ as int) as nat
    } else {
        0
    }
}

/// A line, if the condition holds.
pub open spec fn when(on: bool, text: Seq<char>, tone: Tone) -> Seq<(Seq<char>, Tone)> {
    if on {
        seq![(text, tone)]
    } else {
        Seq::empty()
    }
}

pub open spec fn raider_of(log: AwayLog) -> Seq<char> {
    match log.raider {
        Some(n) => n@,
        None => "an unknown raider"@,
    }
}

/// The lines of the report.
pub open spec fn report_lines(log: AwayLog, tick: u32) -> Seq<(Seq<char>, Tone)> {
    let quiet = log.credits_lost == 0 && log.buildings_lost == 0 && log.units_lost == 0;
    let blank = Seq::<char>::empty();
    seq![("You were away for "@ + duration_of(away_secs(log.from_tick, tick)) + "."@, Tone::Plain), (blank, Tone::Plain)]
        + when(
        log.credits_gained > 0,
        "+"@ + dec(log.credits_gained as nat) + " credits earned while you slept"@,
        Tone::Good,
    ) + when(log.credits_lost > 0, "-"@ + dec(log.credits_lost as nat) + " credits looted by raiders"@, Tone::Bad) + when(
        log.buildings_lost > 0,
        ""@ + dec(log.buildings_lost as nat) + " building(s) destroyed"@,
        Tone::Bad,
    ) + when(log.units_lost > 0, ""@ + dec(log.units_lost as nat) + " unit(s) lost"@, Tone::Bad) + when(
        log.attacks > 0,
        blank,
        Tone::Plain,
    ) + when(log.attacks > 0, "Your valley was raided by "@ + raider_of(log) + "."@, Tone::Bad) + when(
        quiet,
        blank,
        Tone::Plain,
    ) + when(quiet, "Your base stood untouched. The valley was quiet."@, Tone::Plain) + seq![
        (blank, Tone::Plain),
        ("press any key to continue"@, Tone::Plain),
    ]
}

pub open spec fn lines_view(v: Seq<(String, Tone)>) -> Seq<(Seq<char>, Tone)> {
    Seq::new(v.len(), |i: int| (v[i].0@, v[i].1))
}

fn say(out: &mut Vec<(String, Tone)>, on: bool, text: String, tone: Tone)
    ensures
        lines_view(final(out)@) == lines_view(old(out)@) + when(on, text@, tone),
{
    if on {
        out.push((text, tone));
    }
    proof {
        assert(lines_view(out@) =~= lines_view(old(out)@) + when(on, text@, tone));
    }
}

/// The "while you were away" report: what your settlement earned and suffered during your
/// absence.
pub fn away_report(log: &AwayLog, tick: u32) -> (r: Vec<(String, Tone)>)
    ensures
        lines_view(r@) == report_lines(*log, tick),
{
    let secs: u32 = if tick >= log.from_tick { (tick - log.from_tick) / TICK_HZ } else { 0 };
    let quiet: bool = log.credits_lost == 0 && log.buildings_lost == 0 && log.units_lost == 0;
    let mut head: String = text_of("You were away for ");
    push_text(&mut head, duration(secs).as_str());
    push_text(&mut head, ".");
    let mut raid: String = text_of("Your valley was raided by ");
    match &log.raider {
        Some(n) => push_text(&mut raid, n.as_str()),
        None => push_text(&mut raid, "an unknown raider"),
    }
    push_text(&mut raid, ".");
    let ghost first = (head@, Tone::Plain);
    let mut out: Vec<(String, Tone)> = Vec::new();
    out.push((head, Tone::Plain));
    out.push((String::new(), Tone::Plain));
    proof {
        assert(lines_view(out@)[1].0 =~= Seq::<char>::empty());
        assert(lines_view(out@) =~= seq![first, (Seq::<char>::empty(), Tone::Plain)]);
    }
    say(&mut out, log.credits_gained > 0, line("+", log.credits_gained as u64, " credits earned while you slept"), Tone::Good);
    say(&mut out, log.credits_lost > 0, line("-", log.credits_lost as u64, " credits looted by raiders"), Tone::Bad);
    say(&mut out, log.buildings_lost > 0, line("", log.buildings_lost as u64, " building(s) destroyed"), Tone::Bad);
    say(&mut out, log.units_lost > 0, line("", log.units_lost as u64, " unit(s) lost"), Tone::Bad);
    let (blank, blank2, blank3): (String, String, String) = (String::new(), String::new(), String::new());
    proof {
        assert(blank@ =~= Seq::<char>::empty());
        assert(blank2@ =~= Seq::<char>::empty());
        assert(blank3@ =~= Seq::<char>::empty());
    }
    say(&mut out, log.attacks > 0, blank, Tone::Plain);
    say(&mut out, log.attacks > 0, raid, Tone::Bad);
    say(&mut out, quiet, blank2, Tone::Plain);
    say(&mut out, quiet, text_of("Your base stood untouched. The valley was quiet."), Tone::Plain);
    let ghost body = lines_view(out@);
    out.push((blank3, Tone::Plain));
    out.push((text_of("press any key to continue"), Tone::Plain));
    proof {
        assert(lines_view(out@) =~= body + seq![
            (Seq::<char>::empty(), Tone::Plain),
            ("press any key to continue"@, Tone::Plain),
        ]);
    }
    out
}

// ----------------------------------------------------------------------
// The end of a colony
// ----------------------------------------------------------------------

/// The words on a fallen colony: the day it fell, and the nights it held.
pub fn survival_over(tick: u32) -> (r: (String, String))
    ensures
        r.0@ == "The dark overran your colony on day "@ + dec(day_of(tick)) + "."@,
        r.1@ == "You held the line for "@ + dec((tick / DAY) as nat) + (if tick / DAY == 1 {
            " night."@
        } else {
            " nights."@
        }),
{
    let nights: u32 = tick / DAY;
    (
        line("The dark overran your colony on day ", nights as u64 + 1, "."),
        line("You held the line for ", nights as u64, if nights == 1 { " night." } else { " nights." }),
    )
}

/// The title over those words, and the hint under them.
pub fn fallen_frame() -> (r: (&'static str, &'static str))
    ensures
        r.0@ == "B PROXIMA HAS FALLEN"@,
        r.1@ == "Esc → Quit Game    ·    keep watching the world burn"@,
{
    ("B PROXIMA HAS FALLEN", "Esc → Quit Game    ·    keep watching the world burn")
}

// ----------------------------------------------------------------------
// The field manual
// ----------------------------------------------------------------------

/// The field manual, line by line; the first is its title.
pub open spec fn manual() -> Seq<Seq<char>> {
    seq![
        "IRONVEIN — field manual"@,
        ""@,
        "Left-drag: select your units      Right-click: move / attack / harvest / rally"@,
        "A then click: attack-move         S: stop      X: sell selected building"@,
        "Build tab: click, then place (green = legal, near your buildings)"@,
        "Engineers capture enemy & village buildings (the engineer is consumed)"@,
        "HARVESTING: a Harvester gathers gold ore (=credits), brown TREES (=wood)"@,
        "  and grey ROCKS / mountains (=stone). Right-click one onto the resource."@,
        "  Select a harvester to light up every source on the map, colour-coded."@,
        "Houses raise your unit cap and slowly heal troops nearby — build a town"@,
        "FOOD: soldiers eat. Farms grow it; hunt deer (right-click) & forage berries."@,
        "  A House cooks raw meat into food; Food Silos store more. Starve = no training."@,
        "Ore regrows near glittering nodes. Roads are fast."@,
        "Ctrl+1..9 save a control group, 1..9 recall it"@,
        "Enter: chat. /give 2 500 wires credits. /ally 2 proposes an alliance"@,
        "Allies (mutual /ally) hold fire & share vision. M = the persistent world map"@,
        "F5: save world now (autosaves every minute) — any peer's save can re-host"@,
        ""@,
        "F1 to close"@,
    ]
}

/// The field manual, line by line.
pub fn field_manual() -> (r: Vec<&'static str>)
    ensures
        r@.len() == manual().len(),
        forall|i: int| 0 <= i < r@.len() ==> (#[trigger] r@[i])@ == manual()[i],
{
    vec![
        "IRONVEIN — field manual",
        "",
        "Left-drag: select your units      Right-click: move / attack / harvest / rally",
        "A then click: attack-move         S: stop      X: sell selected building",
        "Build tab: click, then place (green = legal, near your buildings)",
        "Engineers capture enemy & village buildings (the engineer is consumed)",
        "HARVESTING: a Harvester gathers gold ore (=credits), brown TREES (=wood)",
        "  and grey ROCKS / mountains (=stone). Right-click one onto the resource.",
        "  Select a harvester to light up every source on the map, colour-coded.",
        "Houses raise your unit cap and slowly heal troops nearby — build a town",
        "FOOD: soldiers eat. Farms grow it; hunt deer (right-click) & forage berries.",
        "  A House cooks raw meat into food; Food Silos store more. Starve = no training.",
        "Ore regrows near glittering nodes. Roads are fast.",
        "Ctrl+1..9 save a control group, 1..9 recall it",
        "Enter: chat. /give 2 500 wires credits. /ally 2 proposes an alliance",
        "Allies (mutual /ally) hold fire & share vision. M = the persistent world map",
        "F5: save world now (autosaves every minute) — any peer's save can re-host",
        "",
        "F1 to close",
    ]
}

// ----------------------------------------------------------------------
// The chat window
// ----------------------------------------------------------------------

/// How many lines of chat are on screen.
pub const CHAT_LINES: usize = 6;

/// How long a line of chat stays on screen, in ticks.
pub const CHAT_AGE: u32 = 220;

/// Is a line of chat still fresh? While the player types, every line counts.
pub open spec fn chat_fresh(said: u32, tick: u32, typing: bool) -> bool {
    typing || tick - said <= CHAT_AGE
}

/// The newest lines that are on screen, the newest first: the places among the first `n` lines,
/// `room` of them at most.
pub open spec fn chat_shown(said: Seq<u32>, n: nat, room: nat, tick: u32, typing: bool) -> Seq<nat>
    decreases n,
{
    if n == 0 || room == 0 {
        Seq::empty()
    } else if chat_fresh(said[n - 1], tick, typing) {
        seq![(n - 1) as nat] + chat_shown(said, (n - 1) as nat, (room - 1) as nat, tick, typing)
    } else {
        chat_shown(said, (n - 1) as nat, room, tick, typing)
    }
}

/// The lines of chat on screen, the newest first, by the ticks at which they were said.
pub fn chat_window(said: &[u32], tick: u32, typing: bool) -> (r: Vec<usize>)
    ensures
        r@.map_values(|i: usize| i as nat) == chat_shown(said@, said@.len(), CHAT_LINES as nat, tick, typing),
        r@.len() <= CHAT_LINES,
{
    let ghost all = chat_shown(said@, said@.len(), CHAT_LINES as nat, tick, typing);
    let mut out: Vec<usize> = Vec::new();
    let mut n: usize = said.len();
    proof {
        assert(out@.map_values(|i: usize| i as nat) + all =~= all);
    }
    while n > 0 && out.len() < CHAT_LINES
        invariant
            n <= said@.len(),
            out@.len() <= CHAT_LINES,
            out@.map_values(|i: usize| i as nat) + chat_shown(
                said@,
                n as nat,
                (CHAT_LINES - out@.len()) as nat,
                tick,
                typing,
            ) == all,
        decreases n,
    {
        let ghost before = out@;
        let fresh: bool = typing || said[n - 1] >= tick || tick - said[n - 1] <= CHAT_AGE;
        if fresh {
            out.push(n - 1);
            proof {
                let rest = chat_shown(said@, (n - 1) as nat, (CHAT_LINES - out@.len()) as nat, tick, typing);
                assert(out@.map_values(|i: usize| i as nat) + rest =~= before.map_values(|i: usize| i as nat) + (seq![
                    (n - 1) as nat,
                ] + rest));
            }
        }
        n = n - 1;
    }
    proof {
        let rest = chat_shown(said@, n as nat, (CHAT_LINES - out@.len()) as nat, tick, typing);
        assert(rest.len() == 0);
        assert(out@.map_values(|i: usize| i as nat) + rest =~= out@.map_values(|i: usize| i as nat));
    }
    out
}

} // verus!
