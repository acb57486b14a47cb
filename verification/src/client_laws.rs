//! What the client's front end is for: what the command line asks for, what a line of chat says, what the
//! menus lead to, where the map leads, and what the player is told.

use crate::args::{parsed, ArgsV, OutcomeV, Render};
use crate::chat::spoken;
use crate::command::CommandV;
use crate::console::ConsoleV;
use crate::frame::{map_toggled, pauses};
use crate::keeper::{autosave_period_passed, bot_name, bot_word, keeper_parsed, KeeperArgsV, KeeperOutcomeV};
use crate::menu::{
    offered, overlaid, pressed, Overlay, OverlayResult, Page, Press, Saves, StartChoice, StartScreen,
    StartStep,
};
use crate::saves::{autosave_of, boot_of, mode_name, settled, Boot, Mode, Source};
use crate::sectors::{cell_at, holder_of, own_region_of, region_of, Holder};
use crate::state::WorldV;
use crate::text::{dec, dec_reads_back, is_space, trim, trim_start, uint_value};
use vstd::prelude::*;

verus! {

// ----------------------------------------------------------------------
// The command line
// ----------------------------------------------------------------------

proof fn numerals_are_read(n: nat, max: nat)
    ensures
        n <= max ==> uint_value(dec(n), 10, max) == Some(n),
        n > max ==> uint_value(dec(n), 10, max) is None,
{
    dec_reads_back(n);
    assert('0' <= dec(n)[0] <= '9');
}

/// The same command line with something in front of it: reading goes on behind it.
pub open spec fn goes_on(a: ArgsV, argv: Seq<Seq<char>>, i: int, ignored: Seq<Seq<char>>, b: ArgsV) -> bool {
    parsed(a, argv, i, ignored) == parsed(b, argv, i + 2, ignored)
}

/// Each option with its value sets what it names to that value, and nothing else, and reading goes on behind
/// the value.
pub proof fn options_set_what_they_name(a: ArgsV, argv: Seq<Seq<char>>, i: int, ignored: Seq<Seq<char>>, n: nat)
    requires
        0 <= i,
        i + 1 < argv.len(),
    ensures
        argv[i] == "--name"@ ==> goes_on(a, argv, i, ignored, ArgsV { name: argv[i + 1], ..a }),
        argv[i] == "--color"@ && argv[i + 1] == dec(n) && n < 256 ==> goes_on(
            a,
            argv,
            i,
            ignored,
            ArgsV { color: n as u8, color_set: true, ..a },
        ),
        argv[i] == "--host"@ && argv[i + 1] == dec(n) && n < 65536 ==> goes_on(
            a,
            argv,
            i,
            ignored,
            ArgsV { host: Some(n as u16), ..a },
        ),
        argv[i] == "--host"@ && argv[i + 1] == dec(n) && n >= 65536 ==> parsed(a, argv, i, ignored) == (
            OutcomeV::BadPort { value: argv[i + 1] },
            ignored,
        ),
        argv[i] == "--join"@ ==> goes_on(a, argv, i, ignored, ArgsV { join: Some(argv[i + 1]), ..a }),
        argv[i] == "--listen"@ && argv[i + 1] == dec(n) && n < 65536 ==> goes_on(
            a,
            argv,
            i,
            ignored,
            ArgsV { listen: n as u16, ..a },
        ),
        argv[i] == "--bots"@ && argv[i + 1] == dec(n) && n <= usize::MAX ==> goes_on(
            a,
            argv,
            i,
            ignored,
            ArgsV { bots: n as usize, ..a },
        ),
        argv[i] == "--map"@ ==> goes_on(a, argv, i, ignored, ArgsV { skirmish: argv[i + 1] == "skirmish"@, ..a }),
        argv[i] == "--seed"@ && argv[i + 1] == dec(n) && n <= u64::MAX ==> goes_on(
            a,
            argv,
            i,
            ignored,
            ArgsV { seed: n as u64, seed_set: true, ..a },
        ),
        argv[i] == "--load"@ ==> goes_on(a, argv, i, ignored, ArgsV { load: Some(argv[i + 1]), ..a }),
        argv[i] == "--save-dir"@ ==> goes_on(a, argv, i, ignored, ArgsV { save_dir: argv[i + 1], ..a }),
        argv[i] == "--render-music"@ ==> parsed(a, argv, i, ignored).0 == (OutcomeV::Render {
            what: Render::Music,
            path: argv[i + 1],
        }),
        argv[i] == "--render-stems"@ ==> parsed(a, argv, i, ignored).0 == (OutcomeV::Render {
            what: Render::Stems,
            path: argv[i + 1],
        }),
        argv[i] == "--render-title"@ ==> parsed(a, argv, i, ignored).0 == (OutcomeV::Render {
            what: Render::Title,
            path: argv[i + 1],
        }),
        argv[i] == "--render-nether"@ ==> parsed(a, argv, i, ignored).0 == (OutcomeV::Render {
            what: Render::Nether,
            path: argv[i + 1],
        }),
{
    option_words();
    numerals_are_read(n, 255);
    numerals_are_read(n, 65535);
    numerals_are_read(n, usize::MAX as nat);
    numerals_are_read(n, 0xFFFF_FFFF_FFFF_FFFF);
}

/// Options without a value take none; an option that lacks its value is reported, and anything unknown is passed
/// over and noted.
pub proof fn bare_words_are_told_apart(a: ArgsV, argv: Seq<Seq<char>>, i: int, ignored: Seq<Seq<char>>)
    requires
        0 <= i < argv.len(),
    ensures
        argv[i] == "--demo"@ ==> parsed(a, argv, i, ignored) == parsed(ArgsV { demo: true, ..a }, argv, i + 1, ignored),
        argv[i] == "--help"@ || argv[i] == "-h"@ ==> parsed(a, argv, i, ignored) == (OutcomeV::Help, ignored),
        i + 1 == argv.len() && (argv[i] == "--name"@ || argv[i] == "--color"@ || argv[i] == "--host"@ || argv[i] == "--join"@
            || argv[i] == "--listen"@ || argv[i] == "--bots"@ || argv[i] == "--map"@ || argv[i] == "--seed"@ || argv[i]
            == "--load"@ || argv[i] == "--save-dir"@) ==> parsed(a, argv, i, ignored) == (
            OutcomeV::Missing { option: argv[i] },
            ignored,
        ),
        argv[i].len() > 0 && argv[i][0] != '-' ==> parsed(a, argv, i, ignored) == parsed(a, argv, i + 1, ignored.push(argv[i])),
        parsed(a, argv, argv.len() as int, ignored) == (OutcomeV::Run(a), ignored),
{
    option_words();
}

proof fn option_words()
    ensures
        crate::args::flag_in("--name"@) == crate::args::Flag::Name,
        crate::args::flag_in("--color"@) == crate::args::Flag::Color,
        crate::args::flag_in("--host"@) == crate::args::Flag::Host,
        crate::args::flag_in("--join"@) == crate::args::Flag::Join,
        crate::args::flag_in("--listen"@) == crate::args::Flag::Listen,
        crate::args::flag_in("--bots"@) == crate::args::Flag::Bots,
        crate::args::flag_in("--map"@) == crate::args::Flag::MapKind,
        crate::args::flag_in("--seed"@) == crate::args::Flag::Seed,
        crate::args::flag_in("--load"@) == crate::args::Flag::Load,
        crate::args::flag_in("--save-dir"@) == crate::args::Flag::SaveDir,
        crate::args::flag_in("--demo"@) == crate::args::Flag::Demo,
        crate::args::flag_in("--render-music"@) == crate::args::Flag::Render(Render::Music),
        crate::args::flag_in("--render-stems"@) == crate::args::Flag::Render(Render::Stems),
        crate::args::flag_in("--render-title"@) == crate::args::Flag::Render(Render::Title),
        crate::args::flag_in("--render-nether"@) == crate::args::Flag::Render(Render::Nether),
        crate::args::flag_in("--help"@) == crate::args::Flag::Help,
        crate::args::flag_in("-h"@) == crate::args::Flag::Help,
        forall|s: Seq<char>| s.len() > 0 && s[0] != '-' ==> #[trigger] crate::args::flag_in(s) == crate::args::Flag::Unknown,
{
    reveal_strlit("--name");
    reveal_strlit("--color");
    reveal_strlit("--host");
    reveal_strlit("--join");
    reveal_strlit("--listen");
    reveal_strlit("--bots");
    reveal_strlit("--map");
    reveal_strlit("--seed");
    reveal_strlit("--load");
    reveal_strlit("--save-dir");
    reveal_strlit("--demo");
    reveal_strlit("--render-music");
    reveal_strlit("--render-stems");
    reveal_strlit("--render-title");
    reveal_strlit("--render-nether");
    reveal_strlit("--help");
    reveal_strlit("-h");
    assert("--name"@.len() == 6 && "--name"@[0] == '-');
    assert("--color"@.len() == 7 && "--color"@[0] == '-');
    assert("--host"@.len() == 6 && "--host"@[0] == '-');
    assert("--join"@.len() == 6 && "--join"@[0] == '-');
    assert("--listen"@.len() == 8 && "--listen"@[0] == '-');
    assert("--bots"@.len() == 6 && "--bots"@[0] == '-');
    assert("--map"@.len() == 5 && "--map"@[0] == '-');
    assert("--seed"@.len() == 6 && "--seed"@[0] == '-');
    assert("--load"@.len() == 6 && "--load"@[0] == '-');
    assert("--save-dir"@.len() == 10 && "--save-dir"@[0] == '-');
    assert("--demo"@.len() == 6 && "--demo"@[0] == '-');
    assert("--render-music"@.len() == 14 && "--render-music"@[0] == '-');
    assert("--render-stems"@.len() == 14 && "--render-stems"@[0] == '-');
    assert("--render-title"@.len() == 14 && "--render-title"@[0] == '-');
    assert("--render-nether"@.len() == 15 && "--render-nether"@[0] == '-');
    assert("--help"@.len() == 6 && "--help"@[0] == '-');
    assert("-h"@.len() == 2 && "-h"@[0] == '-');
    assert("--name"@[2] == 'n' && "--host"@[2] == 'h' && "--host"@[3] == 'o' && "--help"@[3] == 'e');
    assert("--join"@[2] == 'j' && "--bots"@[2] == 'b' && "--seed"@[2] == 's' && "--load"@[2] == 'l' && "--demo"@[2] == 'd');
    assert("--help"@[2] == 'h');
    assert("--render-music"@[9] == 'm' && "--render-stems"@[9] == 's' && "--render-title"@[9] == 't');
}

/// A keeper's options set what they name, and nothing else; what is no number is reported, and so is a missing
/// value; anything unknown is passed over and noted.
pub proof fn keeper_options_set_what_they_name(
    a: KeeperArgsV,
    argv: Seq<Seq<char>>,
    i: int,
    ignored: Seq<Seq<char>>,
    n: nat,
)
    requires
        0 <= i < argv.len(),
    ensures
        ({
            let r = keeper_parsed(a, argv, i, ignored);
            let more = i + 1 < argv.len();
            &&& more && argv[i] == "--port"@ && argv[i + 1] == dec(n) && n < 65536 ==> r == keeper_parsed(
                KeeperArgsV { port: n as u16, ..a },
                argv,
                i + 2,
                ignored,
            )
            &&& more && argv[i] == "--port"@ && argv[i + 1] == dec(n) && n >= 65536 ==> r == (
                KeeperOutcomeV::Bad { option: argv[i] },
                ignored,
            )
            &&& more && argv[i] == "--load"@ ==> r == keeper_parsed(
                KeeperArgsV { load: Some(argv[i + 1]), ..a },
                argv,
                i + 2,
                ignored,
            )
            &&& more && argv[i] == "--save-dir"@ ==> r == keeper_parsed(
                KeeperArgsV { save_dir: argv[i + 1], ..a },
                argv,
                i + 2,
                ignored,
            )
            &&& more && argv[i] == "--seed"@ && argv[i + 1] == dec(n) && n <= u64::MAX ==> r == keeper_parsed(
                KeeperArgsV { seed: n as u64, ..a },
                argv,
                i + 2,
                ignored,
            )
            &&& more && argv[i] == "--bots"@ && argv[i + 1] == dec(n) && n <= usize::MAX ==> r == keeper_parsed(
                KeeperArgsV { bots: n as usize, ..a },
                argv,
                i + 2,
                ignored,
            )
            &&& !more && (argv[i] == "--port"@ || argv[i] == "--load"@ || argv[i] == "--save-dir"@ || argv[i] == "--seed"@
                || argv[i] == "--bots"@) ==> r == (KeeperOutcomeV::Missing { option: argv[i] }, ignored)
            &&& argv[i] == "--help"@ || argv[i] == "-h"@ ==> r == (KeeperOutcomeV::Help, ignored)
            &&& argv[i].len() > 0 && argv[i][0] != '-' ==> r == keeper_parsed(a, argv, i + 1, ignored.push(argv[i]))
            &&& keeper_parsed(a, argv, argv.len() as int, ignored) == (KeeperOutcomeV::Run(a), ignored)
        }),
{
    reveal_strlit("--port");
    reveal_strlit("--load");
    reveal_strlit("--save-dir");
    reveal_strlit("--seed");
    reveal_strlit("--bots");
    reveal_strlit("--help");
    reveal_strlit("-h");
    assert("--port"@.len() == 6 && "--port"@[0] == '-');
    assert("--load"@.len() == 6 && "--load"@[0] == '-');
    assert("--save-dir"@.len() == 10 && "--save-dir"@[0] == '-');
    assert("--seed"@.len() == 6 && "--seed"@[0] == '-');
    assert("--bots"@.len() == 6 && "--bots"@[0] == '-');
    assert("--help"@.len() == 6 && "--help"@[0] == '-');
    assert("-h"@.len() == 2 && "-h"@[0] == '-');
    assert("--port"@[2] == 'p' && "--load"@[2] == 'l' && "--seed"@[2] == 's' && "--bots"@[2] == 'b' && "--help"@[2] == 'h');
    numerals_are_read(n, 65535);
    numerals_are_read(n, usize::MAX as nat);
    numerals_are_read(n, 0xFFFF_FFFF_FFFF_FFFF);
}

/// The first bots of a world have names of their own, and a list that goes round does so in the same order.
pub proof fn bots_have_names_of_their_own(i: int, j: int, words: int)
    requires
        1 <= words <= 6,
        0 <= i,
        0 <= j,
    ensures
        bot_name(i, words) == bot_name(j, words) <==> i % words == j % words,
{
    reveal_strlit("Gravel");
    reveal_strlit("Sable");
    reveal_strlit("Rust");
    reveal_strlit("Moss");
    reveal_strlit("Flint");
    reveal_strlit("Ash");
    let (p, q) = (i % words, j % words);
    assert(0 <= p < words && 0 <= q < words) by (nonlinear_arith)
        requires
            words >= 1,
            p == i % words,
            q == j % words,
    ;
    assert("Sable"@[0] == 'S' && "Flint"@[0] == 'F' && "Rust"@[0] == 'R' && "Moss"@[0] == 'M');
    if bot_name(i, words) == bot_name(j, words) {
        let k = "Bot "@.len() as int;
        assert(bot_name(i, words).skip(k) =~= bot_word(p));
        assert(bot_name(j, words).skip(k) =~= bot_word(q));
    }
}

/// The world is saved when a multiple of six hundred ticks was passed since it was saved last.
pub proof fn worlds_are_saved_every_minute(tick: u32, last_saved: u32)
    ensures
        autosave_period_passed(tick, last_saved) <==> tick as int / 600 != last_saved as int / 600,
{
}

// ----------------------------------------------------------------------
// Chat
// ----------------------------------------------------------------------

proof fn trimming(s: Seq<char>)
    requires
        s.len() > 0,
        !is_space(s[0]),
        !is_space(s.last()),
    ensures
        trim(s) == s,
{
}

proof fn digits_no_space(n: nat)
    ensures
        dec(n).len() > 0,
        forall|i: int| 0 <= i < dec(n).len() ==> !is_space(#[trigger] dec(n)[i]),
{
    dec_reads_back(n);
    assert forall|i: int| 0 <= i < dec(n).len() implies !is_space(#[trigger] dec(n)[i]) by {
        assert('0' <= dec(n)[i] <= '9');
    }
}

proof fn one_more_word(s: Seq<char>, w: Seq<char>)
    requires
        w.len() > 0,
        forall|i: int| 0 <= i < w.len() ==> !is_space(#[trigger] w[i]),
        s.len() == 0 || is_space(s.last()),
    ensures
        crate::chat::words(s + w) == crate::chat::words(s).push(w),
    decreases w.len(),
{
    let t = s + w;
    assert(t.last() == w.last());
    assert(!is_space(w[w.len() - 1]));
    if w.len() == 1 {
        assert(t.drop_last() =~= s);
        if s.len() > 0 {
            assert(t[t.len() - 2] == s.last());
        }
        assert(w =~= seq![w.last()]);
    } else {
        let v = w.drop_last();
        assert forall|i: int| 0 <= i < v.len() implies !is_space(#[trigger] v[i]) by {
            assert(v[i] == w[i]);
        }
        one_more_word(s, v);
        assert(t.drop_last() =~= s + v);
        assert(t[t.len() - 2] == w[w.len() - 2]);
        let before = crate::chat::words(s).push(v);
        assert(before.drop_last() =~= crate::chat::words(s));
        assert(v.push(w.last()) =~= w);
    }
}

proof fn one_more_space(s: Seq<char>, c: char)
    requires
        is_space(c),
    ensures
        crate::chat::words(s.push(c)) == crate::chat::words(s),
{
    assert(s.push(c).drop_last() =~= s);
}

/// `/give 2 500` wires 500 credits to player 2, and so for every player and every amount; a number too large
/// says nothing.
pub proof fn gifts_are_given(to: nat, amount: nat)
    ensures
        to <= 255 && amount <= 0xFFFF_FFFF ==> spoken("/give "@ + dec(to) + " "@ + dec(amount)) == Some(
            CommandV::GiveCredits { to: to as u8, amount: amount as u32 },
        ),
        to > 255 || amount > 0xFFFF_FFFF ==> spoken("/give "@ + dec(to) + " "@ + dec(amount)) is None,
{
    reveal_strlit("/give ");
    reveal_strlit(" ");
    let t = "/give "@ + dec(to) + " "@ + dec(amount);
    digits_no_space(to);
    digits_no_space(amount);
    assert(t[0] == '/');
    assert(t.last() == dec(amount)[dec(amount).len() - 1]);
    trimming(t);
    let rest = dec(to) + " "@ + dec(amount);
    assert(t.skip(6) =~= rest);
    assert(t.take(6) =~= "/give "@);
    let none = Seq::<char>::empty();
    one_more_word(none, dec(to));
    assert(none + dec(to) =~= dec(to));
    one_more_space(dec(to), ' ');
    assert(dec(to).push(' ') =~= dec(to) + " "@);
    one_more_word(dec(to) + " "@, dec(amount));
    assert(crate::chat::words(none) =~= Seq::<Seq<char>>::empty());
    assert(crate::chat::words(rest) =~= seq![dec(to), dec(amount)]);
    numerals_are_read(to, 255);
    numerals_are_read(amount, 0xFFFF_FFFF);
}

/// `/ally 2` proposes an alliance to player 2, and so for every player.
pub proof fn pacts_are_proposed(with: nat)
    ensures
        with <= 255 ==> spoken("/ally "@ + dec(with)) == Some(CommandV::Ally { with: with as u8 }),
        with > 255 ==> spoken("/ally "@ + dec(with)) is None,
{
    reveal_strlit("/ally ");
    reveal_strlit("/give ");
    let t = "/ally "@ + dec(with);
    digits_no_space(with);
    assert(t.last() == dec(with)[dec(with).len() - 1]);
    trimming(t);
    assert(t.skip(6) =~= dec(with));
    assert(t.take(6) =~= "/ally "@);
    assert(t.take(6)[1] == 'a');
    trimming(dec(with));
    numerals_are_read(with, 255);
}

/// A line of nothing but blanks says nothing.
pub proof fn blanks_say_nothing(s: Seq<char>)
    requires
        forall|i: int| 0 <= i < s.len() ==> is_space(#[trigger] s[i]),
    ensures
        spoken(s) is None,
{
    all_blank(s);
    reveal_strlit("/give ");
    reveal_strlit("/ally ");
}

proof fn all_blank(s: Seq<char>)
    requires
        forall|i: int| 0 <= i < s.len() ==> is_space(#[trigger] s[i]),
    ensures
        trim(s).len() == 0,
        trim_start(s).len() == 0,
    decreases s.len(),
{
    if s.len() > 0 {
        let rest = s.drop_first();
        assert forall|i: int| 0 <= i < rest.len() implies is_space(#[trigger] rest[i]) by {
            assert(rest[i] == s[i + 1]);
        }
        all_blank(rest);
    }
}

// ----------------------------------------------------------------------
// Menus
// ----------------------------------------------------------------------

/// The buttons of the main page open the page they name, and Quit quits; on a mode's page Continue goes on with
/// that mode's run and a difficulty begins a new one of it; a slot loads that slot.
pub proof fn buttons_lead_where_they_say(s: StartScreen, survival: bool, d: u8, n: usize)
    requires
        !s.in_settings,
    ensures
        pressed(s, Press::Survival) == (StartScreen { page: Page::Mode { survival: true }, ..s }, StartStep::Stay),
        pressed(s, Press::Skirmish) == (StartScreen { page: Page::Mode { survival: false }, ..s }, StartStep::Stay),
        pressed(s, Press::LoadGame) == (StartScreen { page: Page::Load, ..s }, StartStep::Stay),
        pressed(s, Press::Settings) == (StartScreen { in_settings: true, ..s }, StartStep::Stay),
        pressed(s, Press::Quit).1 == StartStep::Chosen(StartChoice::Quit),
        pressed(s, Press::Slot(n)).1 == StartStep::Chosen(StartChoice::LoadSlot(n)),
        s.page == (Page::Mode { survival }) ==> (pressed(s, Press::Continue).1 matches StartStep::Chosen(
            StartChoice::Start { survival: m, difficulty, continue_run },
        ) && m == survival && continue_run),
        s.page == (Page::Mode { survival }) ==> pressed(s, Press::Difficulty(d)).1 == StartStep::Chosen(
            StartChoice::Start { survival, difficulty: d, continue_run: false },
        ),
{
}

/// A page offers what can be done on it: loading where a save exists, continuing where a run does, three
/// difficulties, and in the settings nothing but the way back.
pub proof fn pages_offer_what_can_be_done(s: StartScreen, saves: &Saves, n: usize, d: u8)
    ensures
        s.in_settings ==> (offered(s, saves, Press::Back) && !offered(s, saves, Press::Survival) && !offered(
            s,
            saves,
            Press::Slot(n),
        ) && !offered(s, saves, Press::Continue) && !offered(s, saves, Press::Difficulty(d))),
        !s.in_settings && s.page == Page::Main ==> offered(s, saves, Press::Survival) && offered(s, saves, Press::Skirmish)
            && offered(s, saves, Press::Settings) && offered(s, saves, Press::Quit) && (offered(s, saves, Press::LoadGame)
            <==> exists|k: int| 1 <= k <= 6 && k <= saves.slots@.len() && #[trigger] saves.slots@[k - 1]),
        !s.in_settings && s.page == Page::Load ==> (offered(s, saves, Press::Slot(n)) <==> 1 <= n <= 6 && n
            <= saves.slots@.len() && saves.slots@[n - 1]),
        !s.in_settings && s.page == (Page::Mode { survival: true }) ==> (offered(s, saves, Press::Continue)
            <==> saves.survival) && (offered(s, saves, Press::Difficulty(d)) <==> d <= 2),
        !s.in_settings && s.page == (Page::Mode { survival: false }) ==> (offered(s, saves, Press::Continue)
            <==> saves.skirmish) && (offered(s, saves, Press::Difficulty(d)) <==> d <= 2),
{
    if saves.any() {
        let k = choose|k: int| #[trigger] saves.filled(k);
        assert(saves.slots@[k - 1]);
    }
    if exists|k: int| 1 <= k <= 6 && k <= saves.slots@.len() && #[trigger] saves.slots@[k - 1] {
        let k = choose|k: int| 1 <= k <= 6 && k <= saves.slots@.len() && #[trigger] saves.slots@[k - 1];
        assert(saves.filled(k));
    }
}

/// In the pause menu every button does what it says, and a slot saves to that slot and leads back.
pub proof fn the_pause_menu_obeys(n: usize)
    ensures
        overlaid(Overlay::Pause, Press::SaveGame, false) == (Overlay::SaveSlots, OverlayResult::Nothing),
        overlaid(Overlay::Pause, Press::Settings, false) == (Overlay::Settings, OverlayResult::Nothing),
        overlaid(Overlay::Pause, Press::Resume, false) == (Overlay::Closed, OverlayResult::Nothing),
        overlaid(Overlay::Pause, Press::Quit, false).1 == OverlayResult::Quit,
        overlaid(Overlay::Pause, Press::Nothing, false) == (Overlay::Pause, OverlayResult::Nothing),
        1 <= n <= 6 ==> overlaid(Overlay::SaveSlots, Press::Slot(n), false) == (Overlay::Pause, OverlayResult::SaveSlot(n)),
        n == 0 || n > 6 ==> overlaid(Overlay::SaveSlots, Press::Slot(n), false) == (Overlay::SaveSlots, OverlayResult::Nothing),
        overlaid(Overlay::SaveSlots, Press::Back, false) == (Overlay::Pause, OverlayResult::Nothing),
        overlaid(Overlay::SaveSlots, Press::Nothing, false) == (Overlay::SaveSlots, OverlayResult::Nothing),
        overlaid(Overlay::Settings, Press::Back, false) == (Overlay::Pause, OverlayResult::SaveSettings),
        overlaid(Overlay::Settings, Press::Nothing, true) == (Overlay::Pause, OverlayResult::SaveSettings),
        overlaid(Overlay::Settings, Press::Nothing, false) == (Overlay::Settings, OverlayResult::Nothing),
        overlaid(Overlay::Closed, Press::Nothing, true) == (Overlay::Closed, OverlayResult::Nothing),
{
}

/// M opens and closes the map, and Escape closes it, but not while a line is typed. Escape opens the pause menu
/// exactly where it has nothing else to do.
pub proof fn front_keys_do_what_they_say(c: ConsoleV, o: Overlay, demo: bool)
    ensures
        c.chat is None ==> map_toggled(c, true, false) == !c.show_map,
        c.chat is None && c.show_map ==> !map_toggled(c, false, true),
        c.chat is Some ==> map_toggled(c, true, true) == c.show_map,
        map_toggled(c, false, false) == c.show_map,
        !c.show_map ==> !map_toggled(c, false, true),
        pauses(c, o, demo, false, true) <==> !demo && o == Overlay::Closed && c.chat is None && !c.show_map && c.placing is None
            && !c.amove,
        !pauses(c, o, demo, true, false) && !pauses(c, o, demo, false, false),
{
}

// ----------------------------------------------------------------------
// Saves
// ----------------------------------------------------------------------

/// A game that the menu starts is of the mode, the difficulty and the place that were chosen: a continued run
/// comes from that mode's own autosave, a slot from that slot; a survival run has no rivals, and a skirmish one,
/// two or three.
pub proof fn games_start_as_chosen(survival: bool, d: u8, n: usize, skirmish: bool, bots: usize, load: bool)
    ensures
        ({
            let b = boot_of(Some(StartChoice::Start { survival, difficulty: d, continue_run: true }), skirmish, bots, load);
            b.source == Source::Autosave && b.difficulty == d && b.file == b.mode && b.mode == (if survival {
                Mode::Survival
            } else {
                Mode::Skirmish
            })
        }),
        ({
            let b = boot_of(Some(StartChoice::Start { survival, difficulty: d, continue_run: false }), skirmish, bots, load);
            &&& b.source != Source::Autosave && !(b.source is Slot) && (b.source == Source::File <==> load)
            &&& b.file == b.mode && b.difficulty == d && (b.mode == Mode::Survival <==> survival) && b.mode
                != Mode::Persistent
            &&& survival ==> b.bots == 0
            &&& !survival && d <= 2 ==> b.bots == d + 1
        }),
        boot_of(Some(StartChoice::LoadSlot(n)), skirmish, bots, load).source == Source::Slot(n),
        ({
            let b = boot_of(None, skirmish, bots, load);
            &&& b.bots == bots && (b.mode == Mode::Skirmish <==> skirmish) && (b.mode == Mode::Persistent <==> !skirmish)
            &&& b.source == Source::File <==> load
            &&& b.source == Source::Fresh <==> !load
        }),
{
}

/// Rivals are those of the world's own difficulty on a run that goes on, those of the menu on a new one.
pub proof fn rivals_fit_the_world(b: Boot, m: Mode, d: u8)
    requires
        d <= 2,
    ensures
        b.source == Source::Autosave || b.source is Slot ==> settled(b, m, d).0 == (if m == Mode::Skirmish {
            d + 1
        } else {
            0int
        }),
        b.source == Source::File || b.source == Source::Fresh ==> settled(b, m, d) == (b.bots, b.file),
        b.source is Slot ==> settled(b, m, d).1 == m,
        b.source == Source::Autosave ==> settled(b, m, d).1 == b.file,
{
}

/// Every mode has an autosave and a name of its own.
pub proof fn modes_do_not_share_saves(a: Mode, b: Mode)
    requires
        a != b,
    ensures
        autosave_of(a) != autosave_of(b),
        mode_name(a) != mode_name(b),
{
    reveal_strlit("survival.iv");
    reveal_strlit("skirmish.iv");
    reveal_strlit("world.iv");
    reveal_strlit("Survival");
    reveal_strlit("Skirmish");
    reveal_strlit("Persistent");
    assert("survival.iv"@[1] == 'u' && "skirmish.iv"@[1] == 'k');
    assert("Survival"@[1] == 'u' && "Skirmish"@[1] == 'k');
}

// ----------------------------------------------------------------------
// The world map
// ----------------------------------------------------------------------

/// Every pixel of a cell is in that cell, the pixels between cells are in none, and neither are those beyond the
/// map.
pub proof fn pixels_pick_their_cell(c: int, r: int, x: int, y: int)
    requires
        0 <= x < 68,
        0 <= y < 68,
        0 <= c,
        0 <= r,
    ensures
        c < 8 && r < 8 && x < 62 && y < 62 ==> cell_at(c * 68 + x, r * 68 + y) == Some((c, r)),
        c >= 8 || r >= 8 || x >= 62 || y >= 62 ==> cell_at(c * 68 + x, r * 68 + y) is None,
        cell_at(-1 - c, y) is None,
        cell_at(x, -1 - r) is None,
{
    assert((c * 68 + x) / 68 == c && (c * 68 + x) % 68 == x) by (nonlinear_arith)
        requires
            0 <= x < 68,
            0 <= c,
    ;
    assert((r * 68 + y) / 68 == r && (r * 68 + y) % 68 == y) by (nonlinear_arith)
        requires
            0 <= y < 68,
            0 <= r,
    ;
}

/// A sector is held by whoever its controller is: by nobody if it has none, by us if it is us, and otherwise by
/// somebody else.
pub proof fn sectors_are_held_by_their_controller(controller: Seq<u8>, me: Seq<u8>)
    requires
        controller.len() == 32,
        me.len() == 32,
    ensures
        holder_of(controller, me) == Holder::Nobody <==> controller == Seq::new(32, |i: int| 0u8),
        holder_of(controller, me) == Holder::Me <==> controller == me && controller != Seq::new(32, |i: int| 0u8),
        holder_of(controller, me) matches Holder::Rival { color } ==> color < 8,
{
    assert(crate::crypto::ZERO_KEY@ =~= Seq::new(32, |i: int| 0u8));
}

/// Our own sector shows the settler who dominates it, the world's time, and us as its host.
pub proof fn our_sector_shows_its_ruler(id: Seq<char>, host: Seq<u8>, w: WorldV, p: u8)
    ensures
        ({
            let r = own_region_of(id, host, w, Some(p));
            &&& r.id == id && r.host == host && r.tick == w.tick
            &&& p < w.players.len() ==> r.controller == w.players[p as int].name && r.ctrl_key == w.players[p as int].key
        }),
        own_region_of(id, host, w, None).controller.len() == 0,
        own_region_of(id, host, w, None).ctrl_key == Seq::new(32, |i: int| 0u8),
{
    assert(crate::crypto::ZERO_KEY@ =~= Seq::new(32, |i: int| 0u8));
}

/// A sector on the map tells what its beacon told.
pub proof fn sectors_tell_what_beacons_told(b: crate::beacon::BeaconV)
    ensures
        region_of(b).id == b.region,
        region_of(b).controller == b.controller_name,
        region_of(b).ctrl_key == b.controller,
        region_of(b).host == b.host,
        region_of(b).tick == b.tick,
        region_of(b).players == b.players,
{
}

proof fn counting_the_settled(a: WorldV, b: WorldV, n: nat)
    requires
        n <= a.players.len(),
        n <= b.players.len(),
        forall|i: int| 0 <= i < n ==> (#[trigger] a.players[i]).joined == b.players[i].joined,
    ensures
        crate::keeper::settled_of(a, n) == crate::keeper::settled_of(b, n),
    decreases n,
{
    if n > 0 {
        counting_the_settled(a, b, (n - 1) as nat);
        assert(a.players[n - 1].joined == b.players[n - 1].joined);
    }
}

/// Every settlement on record counts once, and an empty seat not at all.
pub proof fn settlements_are_counted(w: WorldV, p: crate::state::PlayerV)
    ensures
        ({
            let more = WorldV { players: w.players.push(p), ..w };
            crate::keeper::settled_of(more, more.players.len()) == crate::keeper::settled_of(w, w.players.len()) + (if p.joined {
                1nat
            } else {
                0nat
            })
        }),
        crate::keeper::settled_of(w, 0) == 0,
{
    let more = WorldV { players: w.players.push(p), ..w };
    counting_the_settled(w, more, w.players.len());
}

} // verus!
