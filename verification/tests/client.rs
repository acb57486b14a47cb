//! The client around the session: arguments, console, alerts, menus, lists.

use ironvein::alerts::{announce, push_capped, words_of, Alert, Anchors, Placed, Plight, Pos, Ready, Watch};
use ironvein::args::{parse_args, read_number, Args, Outcome, Render};
use ironvein::beacon::{host_room_code, room_code_region, Beacon};
use ironvein::chat::{erase_char, say, type_char};
use ironvein::command::{Command, Eid, Tp};
use ironvein::console::{
    issue_context_order, producer_for, Console, Effect, Ent, Hue, Input, Left, Notice, Release, Side, Spot,
};
use ironvein::crypto::{Identity, ZERO_KEY};
use ironvein::keeper::{bot_names, parse_keeper_args, report, settlements, Keeper, KeeperOutcome};
use ironvein::kinds::{kind_blurb, tab, Kind};
use ironvein::menu::{overlay_frame, Overlay, OverlayResult, Page, Press, Saves, StartChoice, StartScreen, StartStep};
use ironvein::prefs::{read_pairs, settings_text};
use ironvein::rendezvous::{public_rows, row_text, Looking, Rendezvous};
use ironvein::report::{
    away_report, chat_window, duration, fallen_frame, field_manual, report_due, survival_over, AwayLog, Tone,
};
use ironvein::saves::{
    autosave_file, boot, bots_for, id_path, keeps_save, save_label, settle, slot_iv_path, slot_label, slot_meta_path, Mode, Source,
};
use ironvein::scene::{
    badge, busiest_rival, button, helper, monsters_near, paint_order, price_text, resource_label, resource_name, top_hit, Figure,
    Goods, Hit, Spotted,
};
use ironvein::sectors::{can_travel, cell_of, holder, parse_sector, prompt, region_at, sector_name, short_name, Holder};
use ironvein::seeds::{fresh_seed, region_seed, scramble, seed_at};
use ironvein::session::{Player, World};

fn strings(v: &[&str]) -> Vec<String> {
    v.iter().map(|s| s.to_string()).collect()
}

fn run(v: &[&str]) -> Args {
    let mut argv = vec!["ironvein"];
    argv.extend_from_slice(v);
    match parse_args(None, 7, &strings(&argv)).0 {
        Outcome::Run(a) => a,
        o => panic!("{:?}", o),
    }
}

// ----------------------------------------------------------------------
// Arguments
// ----------------------------------------------------------------------

#[test]
fn no_arguments_give_the_defaults() {
    let a = run(&[]);
    assert_eq!((a.name.as_str(), a.color, a.bots, a.seed, a.listen), ("settler", 0, 1, 7, 0));
    assert_eq!((a.save_dir.as_str(), a.region.as_str()), ("saves", "A1"));
    assert!(!a.color_set && !a.seed_set && !a.skirmish && !a.demo);
    assert!(a.host.is_none() && a.join.is_none() && a.load.is_none());
    assert_eq!(Args::new(Some("ada".into()), 1).name, "ada");
}

#[test]
fn arguments_are_read() {
    let a = run(&[
        "--name", "Ada", "--color", "3", "--host", "47777", "--join", "h:1", "--listen", "9", "--bots", "3", "--map", "skirmish",
        "--seed", "42", "--load", "w.iv", "--save-dir", "d", "--demo",
    ]);
    assert_eq!((a.name.as_str(), a.color, a.host, a.listen, a.bots, a.seed), ("Ada", 3, Some(47777), 9, 3, 42));
    assert_eq!((a.join.as_deref(), a.load.as_deref(), a.save_dir.as_str()), (Some("h:1"), Some("w.iv"), "d"));
    assert!(a.color_set && a.seed_set && a.skirmish && a.demo);
}

#[test]
fn numbers_that_cannot_be_read_fall_back() {
    let a = run(&["--color", "red", "--listen", "70000", "--bots", "-1", "--seed", "x", "--map", "valley"]);
    assert_eq!((a.color, a.listen, a.bots, a.seed), (0, 0, 1, 7));
    assert!(a.color_set && a.seed_set && !a.skirmish);
    assert_eq!(read_number("+12", 255, 0), 12);
    assert_eq!(read_number("256", 255, 5), 5);
}

#[test]
fn odd_command_lines_are_answered() {
    let odd = |v: &[&str]| parse_args(None, 0, &strings(v));
    assert!(matches!(odd(&["x", "--help", "--host"]).0, Outcome::Help));
    assert!(matches!(odd(&["x", "-h"]).0, Outcome::Help));
    assert!(matches!(odd(&["x", "--host", "no"]).0, Outcome::BadPort { value } if value == "no"));
    assert!(matches!(odd(&["x", "--name"]).0, Outcome::Missing { option } if option == "--name"));
    assert!(matches!(odd(&["x", "--render-music"]).0, Outcome::Render { what: Render::Music, path } if path == "ironvein_music.wav"));
    assert!(matches!(odd(&["x", "--render-stems", "d"]).0, Outcome::Render { what: Render::Stems, path } if path == "d"));
    assert!(matches!(odd(&["x", "--render-title"]).0, Outcome::Render { what: Render::Title, path } if path == "ironvein_title.wav"));
    assert!(
        matches!(odd(&["x", "--render-nether"]).0, Outcome::Render { what: Render::Nether, path } if path == "ironvein_nether.wav")
    );
    let (o, ignored) = odd(&["x", "what", "--demo", "ever"]);
    assert!(matches!(o, Outcome::Run(a) if a.demo));
    assert_eq!(ignored, strings(&["what", "ever"]));
}

#[test]
fn page_parameters_are_read() {
    let mut a = run(&[]);
    a.apply_page(Some(" b2 ".into()), Some("Ada".into()), Some("11".into()), Some("9".into()), None);
    assert_eq!((a.region.as_str(), a.name.as_str(), a.color, a.bots), ("B2", "Ada", 3, 6));
    assert!(a.color_set && a.seed_set);
    assert_eq!(a.seed, region_seed("B2"));
    let mut b = run(&[]);
    b.apply_page(Some("straße".into()), None, Some("x".into()), Some("2".into()), Some("42".into()));
    assert_eq!((b.region.as_str(), b.seed, b.bots), ("STRASSE", 42, 2));
    assert!(!b.color_set);
    let mut c = run(&[]);
    c.apply_place(None, None, None, None, None);
    assert_eq!((c.region.as_str(), c.seed, c.seed_set), ("A1", 7, false));
}

#[test]
fn seeds_are_spread() {
    assert_eq!(scramble(0), 0xe220a8397b1dcdaf);
    assert_ne!(scramble(1), scramble(2));
    assert_eq!(seed_at(Some(5)), scramble(5));
    assert_eq!(seed_at(Some((1u128 << 64) + 5)), scramble(5));
    assert_eq!(seed_at(None), scramble(0xC0FFEE_D00D));
    assert_ne!(fresh_seed(), fresh_seed());
    assert_eq!(region_seed(""), 0xcbf29ce484222325);
    assert_eq!(region_seed("a"), 0xaf63dc4c8601ec8c);
    assert_ne!(region_seed("A1"), region_seed("A2"));
}

#[test]
fn keepers_read_their_command_line() {
    let k = |v: &[&str]| parse_keeper_args(9, &strings(v));
    match k(&["x", "--port", "1", "--load", "w", "--save-dir", "d", "--seed", "5", "--bots", "2", "huh"]) {
        (KeeperOutcome::Run(a), ignored) => {
            assert_eq!((a.port, a.load.as_deref(), a.save_dir.as_str(), a.seed, a.bots), (1, Some("w"), "d", 5, 2));
            assert_eq!(ignored, strings(&["huh"]));
        }
        _ => panic!("runs"),
    }
    assert!(matches!(k(&["x"]).0, KeeperOutcome::Run(a) if a.port == 47777 && a.seed == 9 && a.bots == 0));
    assert!(matches!(k(&["x", "--help"]).0, KeeperOutcome::Help));
    assert!(matches!(k(&["x", "--seed"]).0, KeeperOutcome::Missing { option } if option == "--seed"));
    assert!(matches!(k(&["x", "--bots", "many"]).0, KeeperOutcome::Bad { option } if option == "--bots"));
    assert!(matches!(k(&["x", "--port", "65536"]).0, KeeperOutcome::Bad { option } if option == "--port"));
}

#[test]
fn keepers_save_once_a_minute() {
    let mut k = Keeper::new(590);
    assert!(!k.save(599));
    assert!(k.save(600));
    assert!(!k.save(601));
    assert!(!k.save(1199));
    assert!(k.save(1200));
    assert!(k.think(3));
    assert!(!k.think(3));
    assert!(k.think(4));
}

#[test]
fn keepers_report() {
    let w = World {
        tick: 5,
        players: vec![
            Player { joined: true, name: "a".into(), key: [0; 32] },
            Player { joined: false, name: "b".into(), key: [0; 32] },
        ],
    };
    assert_eq!(settlements(&w), 1);
    assert_eq!(report(5, 2, 1, 0xAB, "ok"), "tick 5 | 2 peers online | 1 settlements | hash 00000000000000ab | ok");
    assert_eq!(bot_names(5, 4), strings(&["Bot Gravel", "Bot Sable", "Bot Rust", "Bot Moss", "Bot Gravel"]));
    assert_eq!(bot_names(6, 6)[5], "Bot Ash");
}

// ----------------------------------------------------------------------
// Chat
// ----------------------------------------------------------------------

#[test]
fn lines_of_chat_are_read() {
    assert!(matches!(say("  hello there "), Some(Command::Chat { text }) if text == "hello there"));
    assert!(matches!(say("/give 2 500"), Some(Command::GiveCredits { to: 2, amount: 500 })));
    assert!(matches!(say("/give   2\t500  "), Some(Command::GiveCredits { to: 2, amount: 500 })));
    assert!(say("/give 2").is_none());
    assert!(say("/give 2 5 6").is_none());
    assert!(say("/give 300 5").is_none());
    assert!(matches!(say("/ally   3"), Some(Command::Ally { with: 3 })));
    assert!(say("/ally x").is_none());
    assert!(matches!(say("/give"), Some(Command::Chat { text }) if text == "/give"));
    assert!(say("   ").is_none());
}

#[test]
fn typing_stops_at_the_limit() {
    let mut s = String::new();
    type_char(&mut s, '\n');
    type_char(&mut s, '\u{85}');
    assert_eq!(s, "");
    for _ in 0..200 {
        type_char(&mut s, 'é');
    }
    assert_eq!(s.len(), 110);
    type_char(&mut s, 'x');
    assert_eq!(s.len(), 110);
    erase_char(&mut s);
    assert_eq!(s.len(), 108);
    let mut e = String::new();
    erase_char(&mut e);
    assert_eq!(e, "");
}

// ----------------------------------------------------------------------
// Console
// ----------------------------------------------------------------------

fn eid(n: u32) -> Eid {
    Eid { idx: n, gen: 1 }
}

fn thing(n: u32, owner: u8) -> Ent {
    Ent {
        id: eid(n),
        owner,
        kind: 0,
        building: false,
        unit: false,
        infantry: false,
        engineer: false,
        harvester: false,
        silo: false,
        depot: false,
        clinic: false,
        armed: false,
        hp: 10,
        done: true,
        charged: false,
    }
}

/// 1 rifleman, 2 engineer, 3 harvester, 4 depot, 5 clinic, 6 silo: ours; 7 tank, 8 barracks:
/// theirs.
fn field() -> Vec<Ent> {
    vec![
        Ent { unit: true, infantry: true, armed: true, ..thing(1, 0) },
        Ent { unit: true, infantry: true, engineer: true, ..thing(2, 0) },
        Ent { unit: true, harvester: true, ..thing(3, 0) },
        Ent { building: true, depot: true, kind: 40, ..thing(4, 0) },
        Ent { building: true, clinic: true, kind: 41, ..thing(5, 0) },
        Ent { building: true, silo: true, charged: true, kind: 42, ..thing(6, 0) },
        Ent { unit: true, armed: true, ..thing(7, 1) },
        Ent { building: true, kind: 41, ..thing(8, 1) },
    ]
}

fn spot(hit: Option<u32>) -> Spot {
    Spot { tile: Tp::new(3, 4), hit: hit.map(eid), resource: None, in_bounds: true, can_place: true }
}

fn idle() -> Input {
    Input {
        typed: vec![],
        backspace: false,
        enter: false,
        escape: false,
        f1: false,
        f5: false,
        key_a: false,
        key_s: false,
        key_x: false,
        key_h: false,
        key_n: false,
        digits: vec![false; 9],
        left_ctrl: false,
        right_ctrl: false,
        left_shift: false,
        right_shift: false,
        region: None,
        left: Left::Nowhere,
        release: None,
        right: false,
        in_view: true,
        spot: spot(None),
    }
}

fn order(sel: &[u32], s: Spot) -> Vec<Effect> {
    let mut out = Vec::new();
    issue_context_order(&mut out, &field(), &sel.iter().map(|n| eid(*n)).collect(), 0, &s);
    out
}

fn is_mark(e: &Effect, hue: Hue) -> bool {
    matches!(e, Effect::Mark(t, h) if *t == Tp::new(3, 4) && *h == hue)
}

#[test]
fn right_clicks_call_for_the_fitting_order() {
    let fx = order(&[1, 2], spot(Some(8)));
    assert!(matches!(&fx[0], Effect::Order(Command::Capture { unit, target }) if *unit == eid(2) && *target == eid(8)));
    assert!(is_mark(&fx[1], Hue::Capture));
    assert_eq!(fx.len(), 2);

    let fx = order(&[1, 3], spot(Some(7)));
    assert!(matches!(&fx[0], Effect::Order(Command::Attack { units, target }) if *units == vec![eid(1)] && *target == eid(7)));
    assert!(is_mark(&fx[1], Hue::Attack));

    let fx = order(&[1, 3], spot(Some(4)));
    assert!(matches!(&fx[0], Effect::Order(Command::Move { units, .. }) if *units == vec![eid(3)]));
    assert!(is_mark(&fx[1], Hue::Repair));
    assert!(matches!(fx[2], Effect::Say(Notice::ToRepairs)));

    let fx = order(&[1, 3], spot(Some(5)));
    assert!(matches!(&fx[0], Effect::Order(Command::Move { units, .. }) if *units == vec![eid(1)]));
    assert!(matches!(fx[2], Effect::Say(Notice::ToMedBay)));

    // a harvester cannot attack: it goes there
    let fx = order(&[3], spot(Some(7)));
    assert!(matches!(&fx[0], Effect::Order(Command::Move { units, .. }) if *units == vec![eid(3)]));
    assert!(is_mark(&fx[1], Hue::Move));

    for (kind, hue) in [(0, Hue::Ore), (1, Hue::Wood), (2, Hue::Stone)] {
        let fx = order(&[1, 3], Spot { resource: Some(kind), ..spot(None) });
        assert!(matches!(&fx[0], Effect::Order(Command::Harvest { units, .. }) if *units == vec![eid(3)]));
        assert!(matches!(&fx[1], Effect::Order(Command::Move { units, .. }) if *units == vec![eid(1)]));
        assert!(is_mark(&fx[2], hue));
    }

    let fx = order(&[4], spot(None));
    assert!(matches!(&fx[0], Effect::Order(Command::SetRally { building, .. }) if *building == eid(4)));
    assert!(is_mark(&fx[1], Hue::Rally));
    assert!(order(&[8], spot(None)).is_empty());
    assert!(order(&[], spot(None)).is_empty());
}

fn console(sel: &[u32]) -> Console {
    let mut c = Console::new();
    c.sel = sel.iter().map(|n| eid(*n)).collect();
    c
}

#[test]
fn hotkeys_work() {
    let f = field();
    let mut c = console(&[1, 4]);
    let fx = c.handle_input(&Input { key_s: true, f1: true, f5: true, key_h: true, ..idle() }, &f, 0);
    assert!(c.help);
    assert!(matches!(fx[0], Effect::Save));
    assert!(matches!(&fx[1], Effect::Order(Command::Stop { units }) if *units == vec![eid(1)]));
    assert!(matches!(fx[2], Effect::Center));
    let fx = c.handle_input(&Input { key_x: true, ..idle() }, &f, 0);
    assert!(matches!(&fx[0], Effect::Order(Command::Sell { building }) if *building == eid(4)));
    assert_eq!(c.sel, vec![eid(1)]);
    // attack-move, then a click
    assert!(c.handle_input(&Input { key_a: true, ..idle() }, &f, 0).is_empty());
    assert!(c.amove);
    let fx = c.handle_input(&Input { left: Left::Field, ..idle() }, &f, 0);
    assert!(matches!(&fx[0], Effect::Order(Command::AttackMove { units, .. }) if *units == vec![eid(1)]));
    assert!(is_mark(&fx[1], Hue::Advance));
    assert!(!c.amove);
    // the cheat needs its three keys
    let fx = c.handle_input(&Input { key_n: true, left_ctrl: true, left_shift: true, ..idle() }, &f, 0);
    assert!(matches!(fx[0], Effect::Descend));
}

#[test]
fn silos_are_armed_and_fired() {
    let mut f = field();
    let mut c = console(&[6]);
    let fx = c.handle_input(&Input { key_n: true, ..idle() }, &f, 0);
    assert!(matches!(fx[0], Effect::Say(Notice::PickTarget)));
    let off = Spot { in_bounds: false, ..spot(None) };
    assert!(c.handle_input(&Input { left: Left::Field, spot: off, ..idle() }, &f, 0).is_empty());
    let fx = c.handle_input(&Input { left: Left::Field, ..idle() }, &f, 0);
    assert!(matches!(&fx[0], Effect::Order(Command::FireNuke { silo, .. }) if *silo == eid(6)));
    assert!(is_mark(&fx[1], Hue::Nuke));
    assert!(c.nuke_arm.is_none());
    f[5].charged = false;
    let fx = c.handle_input(&Input { key_n: true, ..idle() }, &f, 0);
    assert!(matches!(fx[0], Effect::Say(Notice::StillCharging)));
    // a silo that was discharged meanwhile is disarmed
    c.nuke_arm = Some(eid(6));
    c.validate_selection(&f, 0);
    assert!(c.nuke_arm.is_none());
    assert_eq!(c.sel, vec![eid(6)]);
}

#[test]
fn escape_leaves_the_innermost_mode() {
    let f = field();
    let mut c = console(&[1]);
    c.nuke_arm = Some(eid(6));
    c.placing = Some(9);
    c.amove = true;
    let esc = Input { escape: true, ..idle() };
    c.handle_input(&esc, &f, 0);
    assert!(c.nuke_arm.is_none() && c.placing.is_some());
    c.handle_input(&esc, &f, 0);
    assert!(c.placing.is_none() && c.amove);
    c.handle_input(&esc, &f, 0);
    assert!(!c.amove && !c.sel.is_empty());
    c.handle_input(&esc, &f, 0);
    assert!(c.sel.is_empty());
    // the right button cancels in the same order, and orders nothing while it does
    c.placing = Some(9);
    assert!(c.handle_input(&Input { right: true, ..idle() }, &f, 0).is_empty());
    assert!(c.placing.is_none());
}

#[test]
fn control_groups_recall_the_living() {
    let mut f = field();
    let mut c = console(&[1, 2]);
    let mut digits = vec![false; 9];
    digits[2] = true;
    c.handle_input(&Input { digits: digits.clone(), right_ctrl: true, ..idle() }, &f, 0);
    c.sel.clear();
    f[0].hp = 0;
    c.handle_input(&Input { digits: digits.clone(), ..idle() }, &f, 0);
    assert_eq!(c.sel, vec![eid(2)]);
    let mut other = vec![false; 9];
    other[0] = true;
    c.handle_input(&Input { digits: other, ..idle() }, &f, 0);
    assert_eq!(c.sel, vec![eid(2)]);
}

#[test]
fn buildings_are_placed_and_units_trained() {
    let f = field();
    let mut c = console(&[]);
    let place = Input { left: Left::Sidebar(Side::Place { kind: 9 }), ..idle() };
    c.handle_input(&place, &f, 0);
    assert_eq!(c.placing, Some(9));
    c.handle_input(&place, &f, 0);
    assert_eq!(c.placing, None);
    c.handle_input(&place, &f, 0);
    let bad = Spot { can_place: false, ..spot(None) };
    assert!(c.handle_input(&Input { left: Left::Field, spot: bad, ..idle() }, &f, 0).is_empty());
    let fx = c.handle_input(&Input { left: Left::Field, left_shift: true, ..idle() }, &f, 0);
    assert!(matches!(fx[0], Effect::Order(Command::Build { kind: 9, .. })));
    assert_eq!(c.placing, Some(9));
    c.handle_input(&Input { left: Left::Field, ..idle() }, &f, 0);
    assert_eq!(c.placing, None);
    c.handle_input(&Input { left: Left::Sidebar(Side::Tab { units: true }), ..idle() }, &f, 0);
    assert!(c.units_tab);
    let train = |p| Input { left: Left::Sidebar(Side::Train { kind: 3, producer: p }), ..idle() };
    let fx = c.handle_input(&train(Some(41)), &f, 0);
    assert!(matches!(&fx[0], Effect::Order(Command::Train { building, kind: 3 }) if *building == eid(5)));
    assert!(c.handle_input(&train(Some(99)), &f, 0).is_empty());
    assert!(c.handle_input(&train(None), &f, 0).is_empty());
    assert!(c.handle_input(&Input { left: Left::Sidebar(Side::Nothing), ..idle() }, &f, 0).is_empty());
    assert!(matches!(c.handle_input(&Input { left: Left::Minimap, ..idle() }, &f, 0)[0], Effect::Jump));
}

#[test]
fn a_selected_producer_is_preferred() {
    let mut f = field();
    f.push(Ent { building: true, kind: 41, ..thing(9, 0) });
    assert_eq!(producer_for(&f, &vec![eid(8), eid(9)], 0, 41), Some(eid(9)));
    assert_eq!(producer_for(&f, &vec![], 0, 41), Some(eid(5)));
    f[4].done = false;
    assert_eq!(producer_for(&f, &vec![], 0, 41), Some(eid(9)));
    assert_eq!(producer_for(&f, &vec![], 0, 77), None);
}

#[test]
fn clicks_and_boxes_select() {
    let f = field();
    let mut c = console(&[]);
    let up = |click, hit: Option<u32>, picks: &[u32], shift| Input {
        release: Some(Release { click, hit: hit.map(eid), picks: picks.iter().map(|n| eid(*n)).collect() }),
        right_shift: shift,
        ..idle()
    };
    // without a drag nothing is let go of
    c.handle_input(&up(true, Some(1), &[], false), &f, 0);
    assert!(c.sel.is_empty());
    let down = Input { left: Left::Field, ..idle() };
    c.handle_input(&down, &f, 0);
    assert!(c.dragging);
    let fx = c.handle_input(&up(true, Some(1), &[], false), &f, 0);
    assert_eq!(c.sel, vec![eid(1)]);
    assert!(matches!(fx[0], Effect::Blip));
    // theirs cannot be selected
    c.handle_input(&down, &f, 0);
    assert!(c.handle_input(&up(true, Some(7), &[], true), &f, 0).is_empty());
    assert_eq!(c.sel, vec![eid(1)]);
    // a box joins, once each
    c.handle_input(&down, &f, 0);
    c.handle_input(&up(false, None, &[2, 1, 3, 2], true), &f, 0);
    assert_eq!(c.sel, vec![eid(1), eid(2), eid(3)]);
    // with shift a click takes out what was in
    c.handle_input(&down, &f, 0);
    c.handle_input(&up(true, Some(2), &[], true), &f, 0);
    assert_eq!(c.sel, vec![eid(1), eid(3)]);
    // without shift the selection starts anew
    c.handle_input(&down, &f, 0);
    c.handle_input(&up(true, None, &[], false), &f, 0);
    assert!(c.sel.is_empty());
    assert_eq!(c.selected_units(&f, 0).len(), 0);
}

#[test]
fn overlays_swallow_the_input() {
    let f = field();
    let mut c = console(&[1]);
    assert!(c.is_free(false) && !c.is_free(true));
    c.handle_input(&Input { enter: true, key_s: true, ..idle() }, &f, 0);
    assert_eq!(c.chat.as_deref(), Some(""));
    assert!(!c.is_free(false));
    let fx = c.handle_input(&Input { typed: vec!['h', 'i', '!'], backspace: true, right: true, key_s: true, ..idle() }, &f, 0);
    assert!(fx.is_empty());
    assert_eq!(c.chat.as_deref(), Some("hi"));
    let fx = c.handle_input(&Input { enter: true, ..idle() }, &f, 0);
    assert!(matches!(&fx[0], Effect::Order(Command::Chat { text }) if text == "hi"));
    assert!(c.chat.is_none());
    c.chat = Some("x".into());
    assert!(c.handle_input(&Input { escape: true, ..idle() }, &f, 0).is_empty());
    assert!(c.chat.is_none());
    c.show_map = true;
    let fx = c.handle_input(&Input { region: Some(4), right: true, ..idle() }, &f, 0);
    assert!(matches!(fx[0], Effect::Travel(4)) && fx.len() == 1);
    c.placing = Some(1);
    c.reset();
    assert!(c.sel.is_empty() && c.placing.is_none() && c.show_map);
}

// ----------------------------------------------------------------------
// Alerts
// ----------------------------------------------------------------------

const CALM: Plight = Plight { low_power: false, starving: false, defeated: false };
const READY: Ready = Ready { alert: true, notify: true, idle: true, demo: false };

#[test]
fn losses_raise_alerts() {
    let mut f = field();
    let mut w = Watch::new();
    assert!(w.check_alerts(&f, 0, CALM, READY).is_empty());
    assert!(w.check_alerts(&f, 0, CALM, READY).is_empty());
    f[0].hp = 5;
    f[6].hp = 1;
    assert_eq!(w.check_alerts(&f, 0, CALM, READY), vec![Alert::UnderAttack { notify: true }]);
    f[0].hp = 4;
    assert!(w.check_alerts(&f, 0, CALM, Ready { alert: false, ..READY }).is_empty());
    // two units are not worth a word, three are
    f[0].hp = 0;
    f[1].hp = 0;
    assert!(w.check_alerts(&f, 0, CALM, READY).is_empty());
    let mut g = field();
    let mut w = Watch::new();
    w.check_alerts(&g, 0, CALM, READY);
    g.drain(0..5);
    assert_eq!(w.check_alerts(&g, 0, CALM, READY), vec![Alert::BuildingsLost(2), Alert::UnitsLost(3)]);
    let bad = Plight { low_power: true, starving: true, defeated: true };
    assert_eq!(
        w.check_alerts(&g, 0, bad, Ready { demo: true, ..READY }),
        vec![Alert::LowPower, Alert::Starving, Alert::Eliminated { notify: false }]
    );
    assert!(w.check_alerts(&g, 0, bad, READY).is_empty());
    assert_eq!(words_of(Alert::BuildingsLost(2)), "2 building(s) destroyed!");
    assert_eq!(words_of(Alert::UnitsLost(3)), "3 units lost in battle");
    assert_eq!(words_of(Alert::UnderAttack { notify: false }), "Your base is under attack!");
}

#[test]
fn short_lists_drop_the_oldest() {
    let mut v = vec![1, 2, 3];
    push_capped(&mut v, 4, 3);
    assert_eq!(v, vec![2, 3, 4]);
    push_capped(&mut v, 5, 4);
    assert_eq!(v, vec![2, 3, 4, 5]);
}

#[test]
fn nights_are_announced() {
    let mut was = false;
    assert!(announce(&mut was, false, false, 0).is_none());
    assert_eq!(announce(&mut was, true, false, 3).unwrap(), "Night 3 falls  —  the dark stirs.");
    assert!(announce(&mut was, true, true, 3).is_none());
    assert_eq!(announce(&mut was, false, false, 3).unwrap(), "Dawn breaks  —  the dark recedes.");
    assert!(announce(&mut was, true, true, 4).unwrap().starts_with("BLOOD MOON  —  Night 4."));
}

#[test]
fn units_are_drawn_between_where_they_were_and_are() {
    let p = |x| Pos { x, y: 0 };
    let mut a = Anchors::new();
    let at = |n, x| Placed { id: eid(n), pos: p(x) };
    a.shift(&vec![at(1, 5)]);
    assert_eq!(a.span(eid(1), p(5)), Some((p(5), p(5))));
    a.shift(&vec![at(1, 7), at(2, 1)]);
    assert_eq!(a.span(eid(1), p(7)), Some((p(5), p(7))));
    assert_eq!(a.span(eid(1), p(8)), None);
    assert_eq!(a.span(eid(3), p(8)), None);
    // the gone are kept for a while, then dropped
    for n in 10..50 {
        a.shift(&vec![at(n, 0)]);
    }
    assert!(a.list.len() <= 33);
    assert!(a.enter(true));
    assert!(a.list.is_empty());
    assert!(!a.enter(true));
}

// ----------------------------------------------------------------------
// Menus and saves
// ----------------------------------------------------------------------

#[test]
fn the_menu_leads_to_a_game() {
    let saves = Saves { survival: true, skirmish: false, slots: vec![false, true] };
    let mut s = StartScreen::new();
    assert_eq!(s.step(&saves, Press::Nothing), StartStep::Stay);
    assert_eq!(s.step(&saves, Press::Settings), StartStep::Stay);
    assert_eq!(s.step(&saves, Press::Survival), StartStep::Stay);
    assert!(s.in_settings);
    assert_eq!(s.step(&saves, Press::Back), StartStep::SaveSettings);
    s.step(&saves, Press::Survival);
    assert_eq!(s.page, Page::Mode { survival: true });
    assert_eq!(
        s.step(&saves, Press::Continue),
        StartStep::Chosen(StartChoice::Start { survival: true, difficulty: 1, continue_run: true })
    );
    s.step(&saves, Press::Back);
    s.step(&saves, Press::Skirmish);
    assert_eq!(s.step(&saves, Press::Continue), StartStep::Stay);
    assert_eq!(
        s.step(&saves, Press::Difficulty(2)),
        StartStep::Chosen(StartChoice::Start { survival: false, difficulty: 2, continue_run: false })
    );
    s.step(&saves, Press::Back);
    s.step(&saves, Press::LoadGame);
    assert_eq!(s.page, Page::Load);
    assert_eq!(s.step(&saves, Press::Slot(1)), StartStep::Stay);
    assert_eq!(s.step(&saves, Press::Slot(9)), StartStep::Stay);
    assert_eq!(s.step(&saves, Press::Slot(2)), StartStep::Chosen(StartChoice::LoadSlot(2)));
    s.step(&saves, Press::Back);
    assert_eq!(s.step(&saves, Press::Quit), StartStep::Chosen(StartChoice::Quit));
    let none = Saves { survival: false, skirmish: false, slots: vec![] };
    assert!(!s.offers(&none, Press::LoadGame));
}

#[test]
fn the_pause_overlay_works() {
    let mut o = Overlay::Pause;
    assert_eq!(overlay_frame(&mut o, Press::SaveGame, false), OverlayResult::Nothing);
    assert_eq!(o, Overlay::SaveSlots);
    assert_eq!(overlay_frame(&mut o, Press::Slot(3), true), OverlayResult::SaveSlot(3));
    assert_eq!(o, Overlay::Pause);
    overlay_frame(&mut o, Press::Settings, false);
    assert_eq!(overlay_frame(&mut o, Press::Nothing, false), OverlayResult::Nothing);
    assert_eq!(overlay_frame(&mut o, Press::Nothing, true), OverlayResult::SaveSettings);
    assert_eq!(overlay_frame(&mut o, Press::Quit, false), OverlayResult::Quit);
    overlay_frame(&mut o, Press::SaveGame, true);
    assert_eq!(o, Overlay::SaveSlots);
    overlay_frame(&mut o, Press::Back, false);
    overlay_frame(&mut o, Press::Resume, false);
    assert_eq!(o, Overlay::Closed);
    assert_eq!(overlay_frame(&mut o, Press::Quit, true), OverlayResult::Nothing);
}

#[test]
fn saves_have_their_places_and_names() {
    assert_eq!(slot_iv_path(3), "saves/save3.iv");
    assert_eq!(slot_meta_path(3), "saves/save3.meta");
    assert_eq!(slot_label(false, Some("x".into())), None);
    assert_eq!(slot_label(true, Some(" \n".into())).unwrap(), "saved game");
    assert_eq!(slot_label(true, None).unwrap(), "saved game");
    assert_eq!(slot_label(true, Some(" x ".into())).unwrap(), " x ");
    assert_eq!(save_label(Mode::Survival, 6000, "Ada"), "Survival · Day 2 · Ada");
    assert_eq!(autosave_file(Mode::Persistent), "world.iv");
    assert_eq!(id_path("Ada_1é b"), "saves/id-Ada_1é_b.key");
    assert!(keeps_save(Mode::Persistent, true));
    assert!(!keeps_save(Mode::Survival, true));
    assert!(keeps_save(Mode::Skirmish, false));
}

#[test]
fn games_start_as_they_were_chosen() {
    assert_eq!((bots_for(0), bots_for(1), bots_for(2), bots_for(7)), (1, 2, 3, 2));
    let start = |survival, difficulty, continue_run| Some(StartChoice::Start { survival, difficulty, continue_run });
    let b = boot(start(true, 2, false), false, 5, true);
    assert_eq!((b.mode, b.difficulty, b.bots, b.source, b.file), (Mode::Survival, 2, 0, Source::File, Mode::Survival));
    let b = boot(start(false, 2, true), false, 5, true);
    assert_eq!((b.mode, b.bots, b.source, b.file), (Mode::Skirmish, 3, Source::Autosave, Mode::Skirmish));
    assert_eq!(settle(b, Mode::Skirmish, 0), (1, Mode::Skirmish));
    let b = boot(Some(StartChoice::LoadSlot(4)), true, 5, false);
    assert_eq!(b.source, Source::Slot(4));
    assert_eq!(settle(b, Mode::Survival, 2), (0, Mode::Survival));
    assert_eq!(settle(b, Mode::Skirmish, 2), (3, Mode::Skirmish));
    let b = boot(None, true, 5, false);
    assert_eq!((b.mode, b.bots, b.source, b.file), (Mode::Skirmish, 5, Source::Fresh, Mode::Persistent));
    assert_eq!(settle(b, Mode::Skirmish, 2), (5, Mode::Persistent));
}

#[test]
fn settings_are_read_back() {
    let t = settings_text("0.9", "0.7", "1", true);
    assert_eq!(t, "master=0.9\nmusic=0.7\nsfx=1\nedge_scroll=1\n");
    let p = read_pairs(&t);
    let want: Vec<(String, String)> = [("master", "0.9"), ("music", "0.7"), ("sfx", "1"), ("edge_scroll", "1")]
        .iter()
        .map(|(a, b)| (a.to_string(), b.to_string()))
        .collect();
    assert_eq!(p, want);
    let odd = read_pairs(" a = b = c \r\n\nnothing\n=x\nlast=1");
    assert_eq!(
        odd,
        vec![("a".into(), "b = c".into()), ("".into(), "x".into()), ("last".into(), "1".into())]
    );
    assert!(read_pairs("").is_empty());
}

// ----------------------------------------------------------------------
// The map, the list, the report
// ----------------------------------------------------------------------

#[test]
fn sectors_are_read() {
    assert_eq!(parse_sector("A1"), Some((0, 0)));
    assert_eq!(parse_sector("h8"), Some((7, 7)));
    assert_eq!(parse_sector("Z-3"), Some((25, -4)));
    assert_eq!(parse_sector("B+2"), Some((1, 1)));
    assert_eq!(parse_sector("B"), None);
    assert_eq!(parse_sector(""), None);
    assert_eq!(parse_sector("1A"), None);
    assert_eq!(parse_sector("é1"), None);
    assert_eq!(parse_sector("A--1"), None);
    assert_eq!(parse_sector("A-+1"), None);
    assert_eq!(parse_sector("A2147483648"), None);
    assert_eq!(cell_of("H8"), Some((7, 7)));
    assert_eq!(cell_of("I1"), None);
    assert_eq!(cell_of("A0"), None);
    for c in 0..8 {
        for r in 0..8 {
            assert_eq!(cell_of(&sector_name(c, r)), Some((c, r)));
        }
    }
    let ids = strings(&["RM00", "B2", "b2", "C1"]);
    assert_eq!(region_at(&ids, 1, 1), Some(1));
    assert_eq!(region_at(&ids, 2, 0), Some(3));
    assert_eq!(region_at(&ids, 0, 0), None);
}

#[test]
fn the_map_tells_who_holds_what() {
    let me = [9u8; 32];
    let mut rival = [0u8; 32];
    rival[0] = 11;
    assert_eq!(holder(&ZERO_KEY, &me), Holder::Nobody);
    assert_eq!(holder(&me, &me), Holder::Me);
    assert_eq!(holder(&rival, &me), Holder::Rival { color: 3 });
    assert!(!can_travel(&ZERO_KEY, &me) && !can_travel(&me, &me) && can_travel(&rival, &me));
    assert_eq!(prompt("B2", Holder::Me), "Sector B2 - you hold this");
    assert_eq!(prompt("B2", Holder::Nobody), "Click to travel to Sector B2");
    assert_eq!(short_name("Maximilian"), "Maximili");
    assert_eq!(short_name("Ada"), "Ada");
}

fn colony(region: &str, host: u8, private: bool) -> Beacon {
    Beacon {
        region: region.into(),
        host: [host; 32],
        tick: 6001,
        players: 1,
        genesis: 0,
        controller: ZERO_KEY,
        controller_name: "".into(),
        private,
    }
}

#[test]
fn the_list_shows_public_colonies_once() {
    let me = [1u8; 32];
    let bs = vec![colony("A1", 1, false), colony("B1", 2, true), colony("C1", 3, false), colony("D1", 3, false), colony("E1", 0, false), colony("F1", 4, false)];
    assert_eq!(public_rows(&bs, &me), vec![2, 5]);
    assert_eq!(row_text(&bs[2]), ("a colony  ·  Sector C1".to_string(), "1 player  ·  day 2".to_string()));
    let mut named = colony("C1", 3, false);
    named.controller_name = "Ada".into();
    named.players = 2;
    assert_eq!(row_text(&named), ("Ada  ·  Sector C1".to_string(), "2 players  ·  day 2".to_string()));
}

#[test]
fn a_typed_room_code_finds_its_host() {
    let host = Identity::generate().unwrap();
    let me = [1u8; 32];
    let code = host_room_code(&host.pk);
    let mut r = Rendezvous::new();
    assert!(matches!(r.look(false, &vec![], &me), Looking::Browse));
    r.type_code(&code.to_lowercase().chars().collect());
    r.type_code(&vec!['x', 'y']);
    assert_eq!(r.code, code.replace('-', ""));
    r.enter_code();
    assert!(matches!(r.look(false, &vec![], &me), Looking::Wait));
    let mut b = colony(&room_code_region(&code), 0, true);
    b.host = host.pk;
    assert!(matches!(r.look(false, &vec![colony("A1", 5, false), b.dup()], &me), Looking::Found(k) if k == host.pk));
    // our own beacon is not the one we wait for
    assert!(matches!(r.look(false, &vec![b.dup()], &host.pk), Looking::Wait));
    assert!(matches!(r.look(true, &vec![b], &me), Looking::Browse));
    assert!(r.pending.is_none());
    r.enter_code();
    r.cancel();
    assert!(r.pending.is_none());
    r.erase();
    assert_eq!(r.code.len(), 7);
}

#[test]
fn returning_players_get_a_report() {
    assert!(report_due(400, 99, true) && !report_due(400, 100, true) && !report_due(400, 0, false) && !report_due(0, 5, true));
    assert_eq!((duration(59), duration(60), duration(3599), duration(3661)), ("59s".into(), "1m 0s".into(), "59m 59s".into(), "1h 1m".into()));
    let quiet = AwayLog { from_tick: 0, credits_gained: 5, credits_lost: 0, buildings_lost: 0, units_lost: 0, attacks: 0, raider: None };
    let lines: Vec<(String, Tone)> = away_report(&quiet, 650);
    let text: Vec<&str> = lines.iter().map(|l| l.0.as_str()).collect();
    assert_eq!(
        text,
        vec![
            "You were away for 1m 5s.", "", "+5 credits earned while you slept", "", "Your base stood untouched. The valley was quiet.",
            "", "press any key to continue",
        ]
    );
    let raid = AwayLog { credits_gained: 0, credits_lost: 7, buildings_lost: 1, units_lost: 2, attacks: 1, raider: Some("Bo".into()), ..quiet };
    let lines = away_report(&raid, 10);
    assert_eq!(lines[2], ("-7 credits looted by raiders".to_string(), Tone::Bad));
    assert_eq!(lines[3].0, "1 building(s) destroyed");
    assert_eq!(lines[4].0, "2 unit(s) lost");
    assert_eq!(lines[6].0, "Your valley was raided by Bo.");
    let (fell, held) = survival_over(6000);
    assert_eq!(fell, "The dark overran your colony on day 2.");
    assert_eq!(held, "You held the line for 1 night.");
    assert_eq!(survival_over(100).1, "You held the line for 0 nights.");
}

#[test]
fn the_chat_window_shows_the_newest() {
    let said = [0, 10, 300, 400, 401, 402, 403, 404, 405];
    assert_eq!(chat_window(&said, 410, false), vec![8, 7, 6, 5, 4, 3]);
    assert_eq!(chat_window(&[0, 300], 520, false), vec![1]);
    assert_eq!(chat_window(&[0, 300], 521, false), Vec::<usize>::new());
    assert_eq!(chat_window(&[0, 300], 521, true), vec![1, 0]);
}

// ----------------------------------------------------------------------
// The scene
// ----------------------------------------------------------------------

#[test]
fn figures_are_painted_back_to_front() {
    let f = |mine, building, fog, depth| Figure { mine, building, unit: !building, fog, depth };
    let fs = vec![f(true, false, 0, 5), f(false, true, 1, 5), f(false, false, 1, 1), f(false, false, 2, -3), f(true, false, 2, 5)];
    assert_eq!(paint_order(&fs), vec![3, 1, 0, 4]);
    assert!(paint_order(&vec![]).is_empty());
}

#[test]
fn clicks_hit_what_is_on_top() {
    let h = |n, depth, unit, mine| Hit { id: eid(n), depth, unit, mine };
    assert_eq!(top_hit(&vec![]), None);
    assert_eq!(top_hit(&vec![h(1, 5, false, true), h(2, 5, true, false), h(3, 4, true, true)]), Some(eid(2)));
    assert_eq!(top_hit(&vec![h(1, 5, true, true), h(2, 5, true, true)]), Some(eid(2)));
}

#[test]
fn the_sidebar_tells_what_can_be_had() {
    let purse = Goods { credits: 100, wood: 5, stone: 0, essence: 0 };
    let price = Goods { credits: 100, wood: 5, stone: 0, essence: 0 };
    assert!(button(purse, price, true, true).enabled);
    assert!(!button(purse, price, false, true).enabled);
    assert!(!button(purse, price, true, false).enabled);
    let dear = Goods { essence: 1, ..price };
    assert!(!button(purse, dear, true, true).afford);
    assert_eq!(price_text(price), "$100   Wood 5");
    assert_eq!(price_text(dear), "$100   Wood 5   Essence 1");
    assert_eq!(badge(&vec![3, 4, 3], 3), (2, true));
    assert_eq!(badge(&vec![4, 3], 3), (1, false));
    assert_eq!((resource_name(0), resource_name(1), resource_name(2)), ("Credits", "Wood", "Stone"));
    assert_eq!(resource_label(1, 40), "Wood  ·  40 left");
    assert_eq!((tab(true).len(), tab(false).len()), (13, 27));
    assert_eq!(tab(false)[4], Kind::PowerPlant);
    assert_eq!(kind_blurb(Kind::Barracks), "Trains infantry.");
    assert_eq!(kind_blurb(Kind::Revenant), "");
}

#[test]
fn danger_is_measured_from_the_middle() {
    let s = |x, y| Spotted { x, y };
    let ms = vec![s(34, 0), s(35, 0), s(-34, -34), s(0, 40)];
    assert_eq!(monsters_near(&vec![s(-1, 0), s(0, 1)], &ms), 2);
    assert_eq!(monsters_near(&vec![], &ms), 0);
}

#[test]
fn hurt_units_find_their_helpers() {
    let p = |x, y| Pos { x, y };
    let (depots, bays, houses) = (vec![p(0, 0)], vec![p(10, 0)], vec![p(0, 0)]);
    assert_eq!(helper(false, p(3, 4), &depots, &bays, &houses, 25, 36), Some(p(0, 0)));
    assert_eq!(helper(false, p(3, 5), &depots, &bays, &houses, 25, 36), None);
    assert_eq!(helper(true, p(4, 0), &depots, &bays, &houses, 25, 36), Some(p(10, 0)));
    assert_eq!(helper(true, p(3, 0), &depots, &bays, &houses, 25, 36), Some(p(0, 0)));
    assert_eq!(busiest_rival(&vec![0, 0, 0, 2, 1, 2, 1], 0), Some(1));
    assert_eq!(busiest_rival(&vec![0, 9], 0), None);
}

#[test]
fn the_manual_tells_how_to_play() {
    let m = field_manual();
    assert_eq!(m.len(), 19);
    assert_eq!((m[0], m[1], m[18]), ("IRONVEIN — field manual", "", "F1 to close"));
    assert_eq!(m[5], "Engineers capture enemy & village buildings (the engineer is consumed)");
    assert_eq!(fallen_frame(), ("B PROXIMA HAS FALLEN", "Esc → Quit Game    ·    keep watching the world burn"));
}
