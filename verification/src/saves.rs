//! Saves: where they lie, what they are called, and what a game starts from.

use crate::beacon::is_alnum;
use crate::menu::StartChoice;
use crate::text::{chars_of, dec, line, push_dec, push_text, text_of, trim, trim_bounds};
use vstd::prelude::*;

verus! {

/// Ticks of a day.
pub const DAY: u32 = 6000;

#[derive(Clone, Copy, Debug, PartialEq, Eq, Structural)]
pub enum Mode {
    Persistent,
    Skirmish,
    Survival,
}

/// The day that a tick falls on, counted from one.
pub open spec fn day_of(tick: u32) -> nat {
    (tick / DAY) as nat + 1
}

pub open spec fn mode_name(m: Mode) -> Seq<char> {
    match m {
        Mode::Survival => "Survival"@,
        Mode::Skirmish => "Skirmish"@,
        Mode::Persistent => "Persistent"@,
    }
}

// ----------------------------------------------------------------------
// Slots
// ----------------------------------------------------------------------

/// The file of a slot.
pub fn slot_iv_path(n: usize) -> (r: String)
    ensures
        r@ == "saves/save"@ + dec(n as nat) + ".iv"@,
{
    line("saves/save", n as u64, ".iv")
}

/// The file of a slot's label.
pub fn slot_meta_path(n: usize) -> (r: String)
    ensures
        r@ == "saves/save"@ + dec(n as nat) + ".meta"@,
{
    line("saves/save", n as u64, ".meta")
}

/// What a slot is called: nothing if it is empty; what its label says, unless that is blank or
/// cannot be read.
pub open spec fn slot_label_of(exists: bool, label: Option<Seq<char>>) -> Option<Seq<char>> {
    if !exists {
        None
    } else {
        match label {
            Some(s) => if trim(s).len() == 0 {
                Some("saved game"@)
            } else {
                Some(s)
            },
            None => Some("saved game"@),
        }
    }
}

/// A one-line description of what's in a slot, or nothing if the slot is empty.
pub fn slot_label(exists: bool, label: Option<String>) -> (r: Option<String>)
    ensures
        match slot_label_of(exists, crate::args::text_in(label)) {
            Some(s) => r is Some && r->0@ == s,
            None => r is None,
        },
{
    if !exists {
        return None;
    }
    match label {
        Some(s) => {
            let v: Vec<char> = chars_of(s.as_str());
            let (a, b) = trim_bounds(&v);
            proof {
                assert(trim(s@).len() == b - a);
            }
            if a == b {
                Some(text_of("saved game"))
            } else {
                Some(s)
            }
        },
        None => Some(text_of("saved game")),
    }
}

/// The label of a game that is saved to a slot.
pub open spec fn label_of(m: Mode, tick: u32, name: Seq<char>) -> Seq<char> {
    mode_name(m) + " · Day "@ + dec(day_of(tick)) + " · "@ + name
}

/// The label of a game that is saved to a slot.
pub fn save_label(m: Mode, tick: u32, name: &str) -> (r: String)
    ensures
        r@ == label_of(m, tick, name@),
{
    let mut s: String = match m {
        Mode::Survival => text_of("Survival"),
        Mode::Skirmish => text_of("Skirmish"),
        Mode::Persistent => text_of("Persistent"),
    };
    push_text(&mut s, " · Day ");
    push_dec(&mut s, (tick / DAY) as u64 + 1);
    push_text(&mut s, " · ");
    push_text(&mut s, name);
    s
}

// ----------------------------------------------------------------------
// Starting
// ----------------------------------------------------------------------

/// The autosave of a mode, in the save directory.
pub open spec fn autosave_of(m: Mode) -> Seq<char> {
    match m {
        Mode::Survival => "survival.iv"@,
        Mode::Skirmish => "skirmish.iv"@,
        Mode::Persistent => "world.iv"@,
    }
}

/// The autosave of a mode, in the save directory.
pub fn autosave_file(m: Mode) -> (r: &'static str)
    ensures
        r@ == autosave_of(m),
{
    match m {
        Mode::Survival => "survival.iv",
        Mode::Skirmish => "skirmish.iv",
        Mode::Persistent => "world.iv",
    }
}

/// Rivals of a skirmish: they rise with difficulty.
pub open spec fn bots_of(difficulty: u8) -> usize {
    if difficulty == 0 {
        1
    } else if difficulty == 2 {
        3
    } else {
        2
    }
}

/// Rivals of a skirmish.
pub fn bots_for(difficulty: u8) -> (n: usize)
    ensures
        n == bots_of(difficulty),
{
    match difficulty {
        0 => 1,
        2 => 3,
        _ => 2,
    }
}

/// Where a game's world comes from.
#[derive(Clone, Copy, Debug, PartialEq, Eq, Structural)]
pub enum Source {
    /// a manual save slot
    Slot(usize),
    /// the autosave of the mode
    Autosave,
    /// the file that the command line names
    File,
    /// a fresh map
    Fresh,
}

/// What a game starts with.
#[derive(Clone, Copy, Debug, PartialEq, Eq, Structural)]
pub struct Boot {
    pub mode: Mode,
    pub difficulty: u8,
    pub bots: usize,
    pub source: Source,
    /// the mode whose autosave the game keeps
    pub file: Mode,
}

/// What a game starts with: as the menu chose, or, without a choice, as the command line says.
pub open spec fn boot_of(choice: Option<StartChoice>, skirmish: bool, bots: usize, load: bool) -> Boot {
    let other = if load {
        Source::File
    } else {
        Source::Fresh
    };
    match choice {
        Some(StartChoice::Start { survival, difficulty, continue_run }) => Boot {
            mode: if survival {
                Mode::Survival
            } else {
                Mode::Skirmish
            },
            difficulty,
            bots: if survival {
                0
            } else {
                bots_of(difficulty)
            },
            source: if continue_run {
                Source::Autosave
            } else {
                other
            },
            file: if survival {
                Mode::Survival
            } else {
                Mode::Skirmish
            },
        },
        Some(StartChoice::LoadSlot(n)) => Boot {
            mode: Mode::Persistent,
            difficulty: 1,
            bots: 0,
            source: Source::Slot(n),
            file: Mode::Persistent,
        },
        _ => Boot {
            mode: if skirmish {
                Mode::Skirmish
            } else {
                Mode::Persistent
            },
            difficulty: 1,
            bots,
            source: other,
            file: Mode::Persistent,
        },
    }
}

/// What a game starts with.
pub fn boot(choice: Option<StartChoice>, skirmish: bool, bots: usize, load: bool) -> (b: Boot)
    ensures
        b == boot_of(choice, skirmish, bots, load),
{
    let other: Source = if load { Source::File } else { Source::Fresh };
    match choice {
        Some(StartChoice::Start { survival, difficulty, continue_run }) => {
            let source: Source = if continue_run { Source::Autosave } else { other };
            if survival {
                Boot { mode: Mode::Survival, difficulty, bots: 0, source, file: Mode::Survival }
            } else {
                Boot { mode: Mode::Skirmish, difficulty, bots: bots_for(difficulty), source, file: Mode::Skirmish }
            }
        },
        Some(StartChoice::LoadSlot(n)) => Boot {
            mode: Mode::Persistent,
            difficulty: 1,
            bots: 0,
            source: Source::Slot(n),
            file: Mode::Persistent,
        },
        _ => {
            let mode: Mode = if skirmish { Mode::Skirmish } else { Mode::Persistent };
            Boot { mode, difficulty: 1, bots, source: other, file: Mode::Persistent }
        },
    }
}

/// How many bots play, and where the game is autosaved, once the world is there. On a resumed
/// run or a loaded slot the world's own difficulty governs, so the same rivals re-bind to their
/// saved bases; a loaded slot is autosaved to the file of its own mode.
pub open spec fn settled(b: Boot, world_mode: Mode, world_difficulty: u8) -> (usize, Mode) {
    let resumed = b.source == Source::Autosave || b.source is Slot;
    (
        if !resumed {
            b.bots
        } else if world_mode == Mode::Skirmish {
            bots_of(world_difficulty)
        } else {
            0
        },
        if b.source is Slot {
            world_mode
        } else {
            b.file
        },
    )
}

/// How many bots play, and the mode whose autosave the game keeps, once the world is there.
pub fn settle(b: Boot, world_mode: Mode, world_difficulty: u8) -> (r: (usize, Mode))
    ensures
        r == settled(b, world_mode, world_difficulty),
{
    let (resumed, slot): (bool, bool) = match b.source {
        Source::Slot(_) => (true, true),
        Source::Autosave => (true, false),
        _ => (false, false),
    };
    let bots: usize = if !resumed {
        b.bots
    } else if world_mode == Mode::Skirmish {
        bots_for(world_difficulty)
    } else {
        0
    };
    (bots, if slot { world_mode } else { b.file })
}

/// Does this peer autosave? Any peer keeps the persistent world (the bytes are identical, any
/// save can re-host); a run of another mode is kept by its own player, not by a guest.
pub fn keeps_save(m: Mode, guest: bool) -> (r: bool)
    ensures
        r == (m == Mode::Persistent || !guest),
{
    match m {
        Mode::Persistent => true,
        Mode::Survival | Mode::Skirmish => !guest,
    }
}

// ----------------------------------------------------------------------
// Identity files
// ----------------------------------------------------------------------

/// What `char::is_alphanumeric` says of a character.
pub uninterp spec fn alphanumeric(c: char) -> bool;

/// `char::is_alphanumeric` tells letters and digits by Unicode's tables: a function of the
/// character, which on ASCII holds of the letters and the digits.
#[verifier::external_body]
fn is_alphanumeric(c: char) -> (r: bool)
    ensures
        r == alphanumeric(c),
        (c as u32) < 128 ==> r == is_alnum(c),
{
    c.is_alphanumeric()
}

/// The callsign with every character that a file name might not bear replaced.
pub open spec fn id_stem(name: Seq<char>) -> Seq<char> {
    name.map_values(
        |c: char|
            if alphanumeric(c) {
                c
            } else {
                '_'
            },
    )
}

/// The key file of a callsign: one keypair per callsign, so your base can only be reclaimed by
/// this key.
pub fn id_path(name: &str) -> (r: String)
    ensures
        r@ == "saves/id-"@ + id_stem(name@) + ".key"@,
        (forall|i: int| 0 <= i < name@.len() ==> is_alnum(#[trigger] name@[i])) ==> r@ == "saves/id-"@ + name@ + ".key"@,
{
    let v: Vec<char> = chars_of(name);
    let mut s: String = text_of("saves/id-");
    let ghost base = s@;
    let mut i: usize = 0;
    proof {
        assert(s@ =~= base + id_stem(name@).take(0));
    }
    while i < v.len()
        invariant
            i <= v@.len(),
            v@ == name@,
            s@ == base + id_stem(name@).take(i as int),
            (forall|k: int| 0 <= k < name@.len() ==> is_alnum(#[trigger] name@[k])) ==> s@ == base + name@.take(i as int),
        decreases v@.len() - i,
    {
        let ghost before = s@;
        s.push(if is_alphanumeric(v[i]) { v[i] } else { '_' });
        proof {
            assert(id_stem(name@).take(i + 1) =~= id_stem(name@).take(i as int).push(id_stem(name@)[i as int]));
            assert(name@.take(i + 1) =~= name@.take(i as int).push(name@[i as int]));
            assert(s@ =~= base + id_stem(name@).take(i + 1));
            if forall|k: int| 0 <= k < name@.len() ==> is_alnum(#[trigger] name@[k]) {
                assert(is_alnum(name@[i as int]));
                assert(s@ =~= base + name@.take(i + 1));
            }
        }
        i = i + 1;
    }
    proof {
        assert(id_stem(name@).take(i as int) =~= id_stem(name@));
        assert(name@.take(i as int) =~= name@);
    }
    push_text(&mut s, ".key");
    s
}

// ----------------------------------------------------------------------
// Laws
// ----------------------------------------------------------------------

/// A resumed run meets the rivals that it was saved with, whatever the menu's difficulty says.
pub proof fn rivals_return(b: Boot, c: Boot, world_mode: Mode, world_difficulty: u8)
    requires
        b.source == Source::Autosave || b.source is Slot,
        c.source == Source::Autosave || c.source is Slot,
    ensures
        settled(b, world_mode, world_difficulty).0 == settled(c, world_mode, world_difficulty).0,
{
}

/// A slot that is loaded is autosaved where the menu's Continue looks for its mode.
pub proof fn continue_finds_the_slot(n: usize, skirmish: bool, bots: usize, load: bool, m: Mode, d: u8)
    ensures
        autosave_of(settled(boot_of(Some(StartChoice::LoadSlot(n)), skirmish, bots, load), m, d).1) == autosave_of(m),
{
}

} // verus!
