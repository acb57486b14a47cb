//! The client's command line and page parameters.

use crate::beacon::upper;
use crate::json::texts;
use crate::seeds::{fnv, region_seed};
use crate::text::{chars_of, parse_uint_str, str_eq, string_of, text_of, trim, trim_bounds, uint_value};
use vstd::prelude::*;
use vstd::utf8::encode_utf8;

verus! {

/// How the client was started.
#[derive(Debug)]
pub struct Args {
    pub name: String,
    pub color: u8,
    /// true if the color was given explicitly; else the Settings colour pick is used
    pub color_set: bool,
    pub host: Option<u16>,
    pub join: Option<String>,
    pub listen: u16,
    pub bots: usize,
    pub skirmish: bool,
    pub seed: u64,
    /// true if the seed was pinned explicitly; otherwise a fresh game rolls a new map each run
    pub seed_set: bool,
    pub load: Option<String>,
    pub save_dir: String,
    pub demo: bool,
    /// which world region to host and advertise
    pub region: String,
}

/// The same, by its contents.
#[verifier::ext_equal]
pub struct ArgsV {
    pub name: Seq<char>,
    pub color: u8,
    pub color_set: bool,
    pub host: Option<u16>,
    pub join: Option<Seq<char>>,
    pub listen: u16,
    pub bots: usize,
    pub skirmish: bool,
    pub seed: u64,
    pub seed_set: bool,
    pub load: Option<Seq<char>>,
    pub save_dir: Seq<char>,
    pub demo: bool,
    pub region: Seq<char>,
}

pub open spec fn text_in(o: Option<String>) -> Option<Seq<char>> {
    match o {
        Some(s) => Some(s@),
        None => None,
    }
}

impl View for Args {
    type V = ArgsV;

    open spec fn view(&self) -> ArgsV {
        ArgsV {
            name: self.name@,
            color: self.color,
            color_set: self.color_set,
            host: self.host,
            join: text_in(self.join),
            listen: self.listen,
            bots: self.bots,
            skirmish: self.skirmish,
            seed: self.seed,
            seed_set: self.seed_set,
            load: text_in(self.load),
            save_dir: self.save_dir@,
            demo: self.demo,
            region: self.region@,
        }
    }
}

/// A piece of the soundtrack to render to a file.
#[derive(Clone, Copy, Debug, PartialEq, Eq, Structural)]
pub enum Render {
    Music,
    Stems,
    Title,
    Nether,
}

/// An option of the command line.
#[derive(Clone, Copy, Debug, PartialEq, Eq, Structural)]
pub enum Flag {
    Name,
    Color,
    Host,
    Join,
    Listen,
    Bots,
    MapKind,
    Seed,
    Load,
    SaveDir,
    Demo,
    Render(Render),
    Help,
    Unknown,
}

/// What the command line asks for.
#[allow(inconsistent_fields)]
#[derive(Debug)]
pub enum Outcome {
    Run(Args),
    /// Render a piece to a path, and be done.
    Render { what: Render, path: String },
    Help,
    /// An option stands at the end, without its value.
    Missing { option: String },
    /// The port to host on is no port.
    BadPort { value: String },
}

#[allow(inconsistent_fields)]
#[verifier::ext_equal]
pub enum OutcomeV {
    Run(ArgsV),
    Render { what: Render, path: Seq<char> },
    Help,
    Missing { option: Seq<char> },
    BadPort { value: Seq<char> },
}

impl View for Outcome {
    type V = OutcomeV;

    open spec fn view(&self) -> OutcomeV {
        match *self {
            Outcome::Run(a) => OutcomeV::Run(a@),
            Outcome::Render { what, path } => OutcomeV::Render { what, path: path@ },
            Outcome::Help => OutcomeV::Help,
            Outcome::Missing { option } => OutcomeV::Missing { option: option@ },
            Outcome::BadPort { value } => OutcomeV::BadPort { value: value@ },
        }
    }
}

// ----------------------------------------------------------------------
// The rules
// ----------------------------------------------------------------------

/// What a client runs with where nothing says otherwise.
pub open spec fn defaults(user: Option<Seq<char>>, seed: u64) -> ArgsV {
    ArgsV {
        name: match user {
            Some(u) => u,
            None => "settler"@,
        },
        color: 0,
        color_set: false,
        host: None,
        join: None,
        listen: 0,
        bots: 1,
        skirmish: false,
        seed,
        seed_set: false,
        load: None,
        save_dir: "saves"@,
        demo: false,
        region: "A1"@,
    }
}

pub open spec fn flag_in(s: Seq<char>) -> Flag {
    if s == "--name"@ {
        Flag::Name
    } else if s == "--color"@ {
        Flag::Color
    } else if s == "--host"@ {
        Flag::Host
    } else if s == "--join"@ {
        Flag::Join
    } else if s == "--listen"@ {
        Flag::Listen
    } else if s == "--bots"@ {
        Flag::Bots
    } else if s == "--map"@ {
        Flag::MapKind
    } else if s == "--seed"@ {
        Flag::Seed
    } else if s == "--load"@ {
        Flag::Load
    } else if s == "--save-dir"@ {
        Flag::SaveDir
    } else if s == "--demo"@ {
        Flag::Demo
    } else if s == "--render-music"@ {
        Flag::Render(Render::Music)
    } else if s == "--render-stems"@ {
        Flag::Render(Render::Stems)
    } else if s == "--render-title"@ {
        Flag::Render(Render::Title)
    } else if s == "--render-nether"@ {
        Flag::Render(Render::Nether)
    } else if s == "--help"@ || s == "-h"@ {
        Flag::Help
    } else {
        Flag::Unknown
    }
}

/// Where a piece is rendered to if no path is given.
pub open spec fn default_path(what: Render) -> Seq<char> {
    match what {
        Render::Music => "ironvein_music.wav"@,
        Render::Stems => "stems_rust"@,
        Render::Title => "ironvein_title.wav"@,
        Render::Nether => "ironvein_nether.wav"@,
    }
}

/// A number, or what stands for one that cannot be read.
pub open spec fn number_or(s: Seq<char>, max: nat, other: nat) -> nat {
    match uint_value(s, 10, max) {
        Some(n) => n,
        None => other,
    }
}

/// The arguments with an option's value; nothing if the value is refused.
pub open spec fn with_value(a: ArgsV, f: Flag, v: Seq<char>) -> Option<ArgsV> {
    match f {
        Flag::Name => Some(ArgsV { name: v, ..a }),
        Flag::Color => Some(ArgsV { color: number_or(v, 255, 0) as u8, color_set: true, ..a }),
        Flag::Host => match uint_value(v, 10, 65535) {
            Some(p) => Some(ArgsV { host: Some(p as u16), ..a }),
            None => None,
        },
        Flag::Join => Some(ArgsV { join: Some(v), ..a }),
        Flag::Listen => Some(ArgsV { listen: number_or(v, 65535, 0) as u16, ..a }),
        Flag::Bots => Some(ArgsV { bots: number_or(v, usize::MAX as nat, 1) as usize, ..a }),
        Flag::MapKind => Some(ArgsV { skirmish: v == "skirmish"@, ..a }),
        Flag::Seed => Some(
            ArgsV { seed: number_or(v, 0xFFFF_FFFF_FFFF_FFFF, a.seed as nat) as u64, seed_set: true, ..a },
        ),
        Flag::Load => Some(ArgsV { load: Some(v), ..a }),
        Flag::SaveDir => Some(ArgsV { save_dir: v, ..a }),
        _ => Some(a),
    }
}

/// What the command line from place `i` on asks for, and the arguments that it ignores.
pub open spec fn parsed(a: ArgsV, argv: Seq<Seq<char>>, i: int, ignored: Seq<Seq<char>>) -> (OutcomeV, Seq<Seq<char>>)
    decreases argv.len() - i,
{
    if i < 0 || i >= argv.len() {
        (OutcomeV::Run(a), ignored)
    } else {
        let f = flag_in(argv[i]);
        match f {
            Flag::Demo => parsed(ArgsV { demo: true, ..a }, argv, i + 1, ignored),
            Flag::Unknown => parsed(a, argv, i + 1, ignored.push(argv[i])),
            Flag::Help => (OutcomeV::Help, ignored),
            Flag::Render(what) => (
                OutcomeV::Render {
                    what,
                    path: if i + 1 < argv.len() {
                        argv[i + 1]
                    } else {
                        default_path(what)
                    },
                },
                ignored,
            ),
            _ => if i + 1 >= argv.len() {
                (OutcomeV::Missing { option: argv[i] }, ignored)
            } else {
                match with_value(a, f, argv[i + 1]) {
                    Some(b) => parsed(b, argv, i + 2, ignored),
                    None => (OutcomeV::BadPort { value: argv[i + 1] }, ignored),
                }
            },
        }
    }
}

// ----------------------------------------------------------------------
// The parser
// ----------------------------------------------------------------------

fn flag_of(s: &str) -> (f: Flag)
    ensures
        f == flag_in(s@),
{
    if str_eq(s, "--name") {
        Flag::Name
    } else if str_eq(s, "--color") {
        Flag::Color
    } else if str_eq(s, "--host") {
        Flag::Host
    } else if str_eq(s, "--join") {
        Flag::Join
    } else if str_eq(s, "--listen") {
        Flag::Listen
    } else if str_eq(s, "--bots") {
        Flag::Bots
    } else if str_eq(s, "--map") {
        Flag::MapKind
    } else if str_eq(s, "--seed") {
        Flag::Seed
    } else if str_eq(s, "--load") {
        Flag::Load
    } else if str_eq(s, "--save-dir") {
        Flag::SaveDir
    } else if str_eq(s, "--demo") {
        Flag::Demo
    } else if str_eq(s, "--render-music") {
        Flag::Render(Render::Music)
    } else if str_eq(s, "--render-stems") {
        Flag::Render(Render::Stems)
    } else if str_eq(s, "--render-title") {
        Flag::Render(Render::Title)
    } else if str_eq(s, "--render-nether") {
        Flag::Render(Render::Nether)
    } else if str_eq(s, "--help") || str_eq(s, "-h") {
        Flag::Help
    } else {
        Flag::Unknown
    }
}

fn path_of(what: Render) -> (r: String)
    ensures
        r@ == default_path(what),
{
    match what {
        Render::Music => text_of("ironvein_music.wav"),
        Render::Stems => text_of("stems_rust"),
        Render::Title => text_of("ironvein_title.wav"),
        Render::Nether => text_of("ironvein_nether.wav"),
    }
}

/// A number of a command line, or what stands for one that cannot be read.
pub fn read_number(s: &str, max: u64, other: u64) -> (n: u64)
    requires
        other <= max,
    ensures
        n == number_or(s@, max as nat, other as nat),
        n <= max,
{
    match parse_uint_str(s, 10, max) {
        Some(n) => n,
        None => other,
    }
}

impl Args {
    /// The defaults, for a user if there is one, and the map seed of an unpinned game.
    pub fn new(user: Option<String>, seed: u64) -> (a: Args)
        ensures
            a@ == defaults(text_in(user), seed),
    {
        Args {
            name: match user {
                Some(u) => u,
                None => text_of("settler"),
            },
            color: 0,
            color_set: false,
            host: None,
            join: None,
            listen: 0,
            bots: 1,
            skirmish: false,
            seed,
            seed_set: false,
            load: None,
            save_dir: text_of("saves"),
            demo: false,
            region: text_of("A1"),
        }
    }

    fn set(&mut self, f: Flag, v: &str) -> (ok: bool)
        ensures
            ok == (with_value(old(self)@, f, v@) is Some),
            ok ==> final(self)@ == with_value(old(self)@, f, v@)->0,
    {
        match f {
            Flag::Name => {
                self.name = text_of(v);
            },
            Flag::Color => {
                self.color = read_number(v, 255, 0) as u8;
                self.color_set = true;
            },
            Flag::Host => match parse_uint_str(v, 10, 65535) {
                Some(p) => {
                    self.host = Some(p as u16);
                },
                None => {
                    return false;
                },
            },
            Flag::Join => {
                self.join = Some(text_of(v));
            },
            Flag::Listen => {
                self.listen = read_number(v, 65535, 0) as u16;
            },
            Flag::Bots => {
                self.bots = read_number(v, usize::MAX as u64, 1) as usize;
            },
            Flag::MapKind => {
                self.skirmish = str_eq(v, "skirmish");
            },
            Flag::Seed => {
                self.seed = read_number(v, 0xFFFF_FFFF_FFFF_FFFF, self.seed);
                self.seed_set = true;
            },
            Flag::Load => {
                self.load = Some(text_of(v));
            },
            Flag::SaveDir => {
                self.save_dir = text_of(v);
            },
            _ => {},
        }
        true
    }

    /// Read the page's parameters (`?region=B2&name=Ada&color=3&bots=1&seed=42`): a browser has
    /// no command line. An explicit seed wins; otherwise a named region picks its own terrain.
    pub fn apply_page(
        &mut self,
        region: Option<String>,
        name: Option<String>,
        color: Option<String>,
        bots: Option<String>,
        seed: Option<String>,
    )
        ensures
            final(self)@ == paged(
                old(self)@,
                match region {
                    Some(r) => Some(uppercase_of(trim(r@))),
                    None => None,
                },
                text_in(name),
                text_in(color),
                text_in(bots),
                text_in(seed),
            ),
    {
        let place: Option<String> = match region {
            Some(r) => Some(uppercase(trimmed(r.as_str()).as_str())),
            None => None,
        };
        self.apply_place(place, name, color, bots, seed);
    }

    /// The same, with the region's name as it counts.
    pub fn apply_place(
        &mut self,
        region: Option<String>,
        name: Option<String>,
        color: Option<String>,
        bots: Option<String>,
        seed: Option<String>,
    )
        ensures
            final(self)@ == paged(old(self)@, text_in(region), text_in(name), text_in(color), text_in(bots), text_in(seed)),
    {
        let named: bool = region.is_some();
        match region {
            Some(r) => {
                self.region = r;
            },
            None => {},
        }
        match name {
            Some(n) => {
                self.name = n;
            },
            None => {},
        }
        match color {
            Some(c) => match parse_uint_str(c.as_str(), 10, 255) {
                Some(n) => {
                    self.color = (n % 8) as u8;
                    self.color_set = true;
                },
                None => {},
            },
            None => {},
        }
        match bots {
            Some(b) => match parse_uint_str(b.as_str(), 10, usize::MAX as u64) {
                Some(n) => {
                    self.bots = if n < 6 { n as usize } else { 6 };
                },
                None => {},
            },
            None => {},
        }
        let pinned: Option<u64> = match seed {
            Some(s) => parse_uint_str(s.as_str(), 10, 0xFFFF_FFFF_FFFF_FFFF),
            None => None,
        };
        match pinned {
            Some(s) => {
                self.seed = s;
                self.seed_set = true;
            },
            None => {
                if named {
                    self.seed = region_seed(self.region.as_str());
                    self.seed_set = true;
                }
            },
        }
    }
}

/// What the command line asks for, and the arguments that it ignores. The first argument is
/// the program's name.
pub fn parse_args(user: Option<String>, seed: u64, argv: &Vec<String>) -> (r: (Outcome, Vec<String>))
    ensures
        (r.0@, texts(r.1@)) == parsed(defaults(text_in(user), seed), texts(argv@), 1, Seq::empty()),
{
    let ghost all = texts(argv@);
    let mut a: Args = Args::new(user, seed);
    let ghost a0 = a@;
    let mut ignored: Vec<String> = Vec::new();
    proof {
        assert(texts(ignored@) =~= Seq::<Seq<char>>::empty());
    }
    let mut i: usize = 1;
    while i < argv.len()
        invariant
            1 <= i,
            all == texts(argv@),
            a0 == defaults(text_in(user), seed),
            parsed(a@, all, i as int, texts(ignored@)) == parsed(a0, all, 1, Seq::empty()),
        decreases argv@.len() - i,
    {
        let n: usize = argv.len();
        proof {
            assert(all[i as int] == argv@[i as int]@);
            assert(i + 1 < n ==> all[i + 1] == argv@[i + 1]@);
        }
        let f: Flag = flag_of(argv[i].as_str());
        match f {
            Flag::Demo => {
                a.demo = true;
            },
            Flag::Unknown => {
                let ghost before = ignored@;
                ignored.push(argv[i].clone());
                proof {
                    assert(texts(ignored@) =~= texts(before).push(all[i as int]));
                }
            },
            Flag::Help => {
                return (Outcome::Help, ignored);
            },
            Flag::Render(what) => {
                let path: String = if i < n - 1 { argv[i + 1].clone() } else { path_of(what) };
                return (Outcome::Render { what, path }, ignored);
            },
            _ => {
                if i >= n - 1 {
                    return (Outcome::Missing { option: argv[i].clone() }, ignored);
                }
                if !a.set(f, argv[i + 1].as_str()) {
                    return (Outcome::BadPort { value: argv[i + 1].clone() }, ignored);
                }
                i = i + 1;
            },
        }
        i = i + 1;
    }
    (Outcome::Run(a), ignored)
}

// ----------------------------------------------------------------------
// Page parameters
// ----------------------------------------------------------------------

/// The text that `str::to_uppercase` makes of a text.
pub uninterp spec fn uppercase_of(s: Seq<char>) -> Seq<char>;

/// `str::to_uppercase` maps a text to upper case by Unicode's rules: a function of the text,
/// which on ASCII maps the letters one by one.
#[verifier::external_body]
fn uppercase(s: &str) -> (r: String)
    ensures
        r@ == uppercase_of(s@),
        (forall|i: int| 0 <= i < s@.len() ==> (#[trigger] s@[i] as u32) < 128) ==> r@ == s@.map_values(|c: char| upper(c)),
{
    s.to_uppercase()
}

/// The text without white space at either end.
pub fn trimmed(s: &str) -> (r: String)
    ensures
        r@ == trim(s@),
{
    let v: Vec<char> = chars_of(s);
    let (a, b) = trim_bounds(&v);
    string_of(&v, a, b)
}

/// The arguments with the page's parameters.
pub open spec fn paged(
    a: ArgsV,
    region: Option<Seq<char>>,
    name: Option<Seq<char>>,
    color: Option<Seq<char>>,
    bots: Option<Seq<char>>,
    seed: Option<Seq<char>>,
) -> ArgsV {
    let place = match region {
        Some(r) => r,
        None => a.region,
    };
    let c = match color {
        Some(s) => uint_value(s, 10, 255),
        None => None,
    };
    let n = match bots {
        Some(s) => uint_value(s, 10, usize::MAX as nat),
        None => None,
    };
    let pinned = match seed {
        Some(s) => uint_value(s, 10, 0xFFFF_FFFF_FFFF_FFFF),
        None => None,
    };
    ArgsV {
        region: place,
        name: match name {
            Some(s) => s,
            None => a.name,
        },
        color: match c {
            Some(x) => (x % 8) as u8,
            None => a.color,
        },
        color_set: a.color_set || c is Some,
        bots: match n {
            Some(x) => if x < 6 {
                x as usize
            } else {
                6
            },
            None => a.bots,
        },
        seed: match pinned {
            Some(x) => x as u64,
            None => if region is Some {
                fnv(encode_utf8(place))
            } else {
                a.seed
            },
        },
        seed_set: a.seed_set || pinned is Some || region is Some,
        ..a
    }
}

// ----------------------------------------------------------------------
// Laws
// ----------------------------------------------------------------------

/// Without arguments a client runs with the defaults.
pub proof fn no_arguments_no_changes(user: Option<Seq<char>>, seed: u64, program: Seq<char>)
    ensures
        parsed(defaults(user, seed), seq![program], 1, Seq::empty()) == (
            OutcomeV::Run(defaults(user, seed)),
            Seq::<Seq<char>>::empty(),
        ),
{
}

/// Two tabs on one region, however the visitors call themselves, see the same terrain.
pub proof fn a_named_region_is_one_place(
    a: ArgsV,
    b: ArgsV,
    region: Seq<char>,
    na: Option<Seq<char>>,
    nb: Option<Seq<char>>,
    color: Option<Seq<char>>,
    bots: Option<Seq<char>>,
)
    ensures
        paged(a, Some(region), na, color, bots, None).seed == paged(b, Some(region), nb, color, bots, None).seed,
        paged(a, Some(region), na, color, bots, None).seed_set,
{
}

} // verus!
