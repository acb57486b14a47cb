//! The headless world keeper: its command line, its bots, and when it saves.
//!
//! A keeper runs on any always-on box and the valley stays alive while everyone sleeps. Every
//! peer's save is byte-identical, so if the keeper dies, anyone can relaunch the world from
//! their own autosave.

use crate::args::text_in;
use crate::json::texts;
use crate::session::World;
use crate::state::WorldV;
use crate::text::{dec, parse_uint_str, push_dec, push_text, str_eq, text_of, uint_value};
use vstd::prelude::*;

verus! {

/// Ticks between two autosaves: a minute.
pub const AUTOSAVE_EVERY: u32 = 600;

/// How a keeper was started.
#[derive(Debug)]
pub struct KeeperArgs {
    pub port: u16,
    pub load: Option<String>,
    pub save_dir: String,
    pub seed: u64,
    pub bots: usize,
}

#[verifier::ext_equal]
pub struct KeeperArgsV {
    pub port: u16,
    pub load: Option<Seq<char>>,
    pub save_dir: Seq<char>,
    pub seed: u64,
    pub bots: usize,
}

impl View for KeeperArgs {
    type V = KeeperArgsV;

    open spec fn view(&self) -> KeeperArgsV {
        KeeperArgsV {
            port: self.port,
            load: text_in(self.load),
            save_dir: self.save_dir@,
            seed: self.seed,
            bots: self.bots,
        }
    }
}

/// What a keeper's command line asks for.
#[allow(inconsistent_fields)]
#[derive(Debug)]
pub enum KeeperOutcome {
    Run(KeeperArgs),
    Help,
    /// An option stands at the end, without its value.
    Missing { option: String },
    /// An option's value is no number that it takes.
    Bad { option: String },
}

#[allow(inconsistent_fields)]
#[verifier::ext_equal]
pub enum KeeperOutcomeV {
    Run(KeeperArgsV),
    Help,
    Missing { option: Seq<char> },
    Bad { option: Seq<char> },
}

impl View for KeeperOutcome {
    type V = KeeperOutcomeV;

    open spec fn view(&self) -> KeeperOutcomeV {
        match *self {
            KeeperOutcome::Run(a) => KeeperOutcomeV::Run(a@),
            KeeperOutcome::Help => KeeperOutcomeV::Help,
            KeeperOutcome::Missing { option } => KeeperOutcomeV::Missing { option: option@ },
            KeeperOutcome::Bad { option } => KeeperOutcomeV::Bad { option: option@ },
        }
    }
}

pub open spec fn keeper_defaults(seed: u64) -> KeeperArgsV {
    KeeperArgsV { port: 47777, load: None, save_dir: "saves"@, seed, bots: 0 }
}

/// Does the option take a value?
pub open spec fn takes_value(s: Seq<char>) -> bool {
    s == "--port"@ || s == "--load"@ || s == "--save-dir"@ || s == "--seed"@ || s == "--bots"@
}

/// The arguments with an option's value; nothing if the value is refused.
pub open spec fn keeper_with(a: KeeperArgsV, s: Seq<char>, v: Seq<char>) -> Option<KeeperArgsV> {
    if s == "--port"@ {
        match uint_value(v, 10, 65535) {
            Some(p) => Some(KeeperArgsV { port: p as u16, ..a }),
            None => None,
        }
    } else if s == "--load"@ {
        Some(KeeperArgsV { load: Some(v), ..a })
    } else if s == "--save-dir"@ {
        Some(KeeperArgsV { save_dir: v, ..a })
    } else if s == "--seed"@ {
        match uint_value(v, 10, 0xFFFF_FFFF_FFFF_FFFF) {
            Some(n) => Some(KeeperArgsV { seed: n as u64, ..a }),
            None => None,
        }
    } else {
        match uint_value(v, 10, usize::MAX as nat) {
            Some(n) => Some(KeeperArgsV { bots: n as usize, ..a }),
            None => None,
        }
    }
}

/// What the command line from place `i` on asks for, and the arguments that it ignores.
pub open spec fn keeper_parsed(
    a: KeeperArgsV,
    argv: Seq<Seq<char>>,
    i: int,
    ignored: Seq<Seq<char>>,
) -> (KeeperOutcomeV, Seq<Seq<char>>)
    decreases argv.len() - i,
{
    if i < 0 || i >= argv.len() {
        (KeeperOutcomeV::Run(a), ignored)
    } else if argv[i] == "--help"@ || argv[i] == "-h"@ {
        (KeeperOutcomeV::Help, ignored)
    } else if !takes_value(argv[i]) {
        keeper_parsed(a, argv, i + 1, ignored.push(argv[i]))
    } else if i + 1 >= argv.len() {
        (KeeperOutcomeV::Missing { option: argv[i] }, ignored)
    } else {
        match keeper_with(a, argv[i], argv[i + 1]) {
            Some(b) => keeper_parsed(b, argv, i + 2, ignored),
            None => (KeeperOutcomeV::Bad { option: argv[i] }, ignored),
        }
    }
}

fn valued(s: &str) -> (r: bool)
    ensures
        r == takes_value(s@),
{
    str_eq(s, "--port") || str_eq(s, "--load") || str_eq(s, "--save-dir") || str_eq(s, "--seed") || str_eq(s, "--bots")
}

impl KeeperArgs {
    fn set(&mut self, s: &str, v: &str) -> (ok: bool)
        ensures
            ok == (keeper_with(old(self)@, s@, v@) is Some),
            ok ==> final(self)@ == keeper_with(old(self)@, s@, v@)->0,
    {
        if str_eq(s, "--port") {
            match parse_uint_str(v, 10, 65535) {
                Some(p) => {
                    self.port = p as u16;
                },
                None => {
                    return false;
                },
            }
        } else if str_eq(s, "--load") {
            self.load = Some(text_of(v));
        } else if str_eq(s, "--save-dir") {
            self.save_dir = text_of(v);
        } else if str_eq(s, "--seed") {
            match parse_uint_str(v, 10, 0xFFFF_FFFF_FFFF_FFFF) {
                Some(n) => {
                    self.seed = n;
                },
                None => {
                    return false;
                },
            }
        } else {
            match parse_uint_str(v, 10, usize::MAX as u64) {
                Some(n) => {
                    self.bots = n as usize;
                },
                None => {
                    return false;
                },
            }
        }
        true
    }
}

/// What a keeper's command line asks for, and the arguments that it ignores.
pub fn parse_keeper_args(seed: u64, argv: &Vec<String>) -> (r: (KeeperOutcome, Vec<String>))
    ensures
        (r.0@, texts(r.1@)) == keeper_parsed(keeper_defaults(seed), texts(argv@), 1, Seq::empty()),
{
    let ghost all = texts(argv@);
    let mut a = KeeperArgs { port: 47777, load: None, save_dir: text_of("saves"), seed, bots: 0 };
    let mut ignored: Vec<String> = Vec::new();
    proof {
        assert(texts(ignored@) =~= Seq::<Seq<char>>::empty());
    }
    let mut i: usize = 1;
    while i < argv.len()
        invariant
            1 <= i,
            all == texts(argv@),
            keeper_parsed(a@, all, i as int, texts(ignored@)) == keeper_parsed(keeper_defaults(seed), all, 1, Seq::empty()),
        decreases argv@.len() - i,
    {
        let n: usize = argv.len();
        proof {
            assert(all[i as int] == argv@[i as int]@);
            assert(i + 1 < n ==> all[i + 1] == argv@[i + 1]@);
        }
        if str_eq(argv[i].as_str(), "--help") || str_eq(argv[i].as_str(), "-h") {
            return (KeeperOutcome::Help, ignored);
        }
        if !valued(argv[i].as_str()) {
            let ghost before = ignored@;
            ignored.push(argv[i].clone());
            proof {
                assert(texts(ignored@) =~= texts(before).push(all[i as int]));
            }
        } else if i >= n - 1 {
            return (KeeperOutcome::Missing { option: argv[i].clone() }, ignored);
        } else {
            if !a.set(argv[i].as_str(), argv[i + 1].as_str()) {
                return (KeeperOutcome::Bad { option: argv[i].clone() }, ignored);
            }
            i = i + 1;
        }
        i = i + 1;
    }
    (KeeperOutcome::Run(a), ignored)
}

// ----------------------------------------------------------------------
// Bots
// ----------------------------------------------------------------------

/// The names that bots go by, in turn.
pub open spec fn bot_word(i: int) -> Seq<char> {
    if i == 0 {
        "Gravel"@
    } else if i == 1 {
        "Sable"@
    } else if i == 2 {
        "Rust"@
    } else if i == 3 {
        "Moss"@
    } else if i == 4 {
        "Flint"@
    } else {
        "Ash"@
    }
}

/// The name of bot `i`, where the first `words` names go round.
pub open spec fn bot_name(i: int, words: int) -> Seq<char> {
    "Bot "@ + bot_word(i % words)
}

fn word_of(i: usize) -> (r: &'static str)
    ensures
        r@ == bot_word(i as int),
{
    if i == 0 {
        "Gravel"
    } else if i == 1 {
        "Sable"
    } else if i == 2 {
        "Rust"
    } else if i == 3 {
        "Moss"
    } else if i == 4 {
        "Flint"
    } else {
        "Ash"
    }
}

/// The names of `n` bots: a keeper's go round after four names, a client's after six.
pub fn bot_names(n: usize, words: usize) -> (r: Vec<String>)
    requires
        1 <= words <= 6,
    ensures
        r@.len() == n,
        forall|i: int| 0 <= i < n ==> (#[trigger] r@[i])@ == bot_name(i, words as int),
{
    let mut out: Vec<String> = Vec::new();
    let mut i: usize = 0;
    while i < n
        invariant
            1 <= words <= 6,
            i <= n,
            out@.len() == i,
            forall|k: int| 0 <= k < i ==> (#[trigger] out@[k])@ == bot_name(k, words as int),
        decreases n - i,
    {
        let mut s: String = text_of("Bot ");
        push_text(&mut s, word_of(i % words));
        out.push(s);
        i = i + 1;
    }
    out
}

// ----------------------------------------------------------------------
// Saving
// ----------------------------------------------------------------------

/// Did the clock pass into another autosave period?
pub open spec fn autosave_period_passed(tick: u32, last_saved: u32) -> bool {
    tick / AUTOSAVE_EVERY != last_saved / AUTOSAVE_EVERY
}

/// What a keeper remembers between two frames.
#[derive(Clone, Copy, Debug, PartialEq, Eq, Structural)]
pub struct Keeper {
    pub last_saved: u32,
    pub last_thought: u32,
}

impl Keeper {
    /// A keeper of a world at the given tick.
    pub fn new(tick: u32) -> (k: Keeper)
        ensures
            k == (Keeper { last_saved: tick, last_thought: u32::MAX }),
    {
        Keeper { last_saved: tick, last_thought: u32::MAX }
    }

    /// Do the bots think now? Once per tick.
    pub fn think(&mut self, tick: u32) -> (due: bool)
        ensures
            due == (tick != old(self).last_thought),
            *final(self) == (Keeper { last_thought: tick, ..*old(self) }),
    {
        let due: bool = tick != self.last_thought;
        self.last_thought = tick;
        due
    }

    /// Is the world saved now? Once per period.
    pub fn save(&mut self, tick: u32) -> (due: bool)
        ensures
            due == autosave_period_passed(tick, old(self).last_saved),
            *final(self) == (Keeper {
                last_saved: if due {
                    tick
                } else {
                    old(self).last_saved
                },
                ..*old(self)
            }),
    {
        let due: bool = tick / AUTOSAVE_EVERY != self.last_saved / AUTOSAVE_EVERY;
        if due {
            self.last_saved = tick;
        }
        due
    }
}

/// How many of the first `n` settlements are taken.
pub open spec fn settled_of(w: WorldV, n: nat) -> nat
    decreases n,
{
    if n == 0 {
        0
    } else {
        settled_of(w, (n - 1) as nat) + if w.players[n - 1].joined {
            1nat
        } else {
            0nat
        }
    }
}

/// How many settlements the world has on record.
pub fn settlements(w: &World) -> (n: usize)
    ensures
        n == settled_of(w@, w@.players.len()),
{
    let mut n: usize = 0;
    let mut i: usize = 0;
    while i < w.players.len()
        invariant
            i <= w.players@.len(),
            n <= i,
            n == settled_of(w@, i as nat),
        decreases w.players@.len() - i,
    {
        proof {
            assert(w@.players[i as int] == w.players@[i as int]@);
        }
        if w.players[i].joined {
            n = n + 1;
        }
        i = i + 1;
    }
    n
}

/// Sixteen hexadecimal digits of a hash.
pub open spec fn hash_text(h: u64) -> Seq<char> {
    crate::beacon::hex_fixed(h as nat, 16)
}

/// The keeper's report.
pub open spec fn report_of(tick: u32, peers: nat, settlers: nat, hash: u64, status: Seq<char>) -> Seq<char> {
    "tick "@ + dec(tick as nat) + " | "@ + dec(peers) + " peers online | "@ + dec(settlers) + " settlements | hash "@ + hash_text(
        hash,
    ) + " | "@ + status
}

/// The keeper's report.
pub fn report(tick: u32, peers: usize, settlers: usize, hash: u64, status: &str) -> (r: String)
    ensures
        r@ == report_of(tick, peers as nat, settlers as nat, hash, status@),
{
    let mut s: String = text_of("tick ");
    push_dec(&mut s, tick as u64);
    push_text(&mut s, " | ");
    push_dec(&mut s, peers as u64);
    push_text(&mut s, " peers online | ");
    push_dec(&mut s, settlers as u64);
    push_text(&mut s, " settlements | hash ");
    crate::beacon::push_hex_fixed(&mut s, hash, 16);
    push_text(&mut s, " | ");
    push_text(&mut s, status);
    s
}

// ----------------------------------------------------------------------
// Laws
// ----------------------------------------------------------------------

/// A world that ran for a whole period since it was saved is saved again; one that stands still
/// is not.
pub proof fn saves_keep_pace(k: Keeper, tick: u32)
    requires
        k.last_saved <= tick,
    ensures
        tick - k.last_saved >= AUTOSAVE_EVERY ==> autosave_period_passed(tick, k.last_saved),
        !autosave_period_passed(k.last_saved, k.last_saved),
        !autosave_period_passed(tick, k.last_saved) ==> tick - k.last_saved < AUTOSAVE_EVERY,
{
}

} // verus!
