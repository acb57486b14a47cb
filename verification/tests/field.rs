//! The field on screen: ground, effects, the command bar, and what happens between frames.

use ironvein::beacon::Beacon;
use ironvein::command::{Eid, Tp};
use ironvein::console::{Console, Ent};
use ironvein::effects::{alive, cue, effect_ttl, health_shown, loot_fade, music_intensity, trauma, Dread, Trauma, VisEvent};
use ironvein::frame::{demo_focus, front_keys, home, unsteered, Focus};
use ironvein::ground::{
    crystals, resource_hint, shoreline, tile_edges, tile_visible, tiles, tiles_in_view, veil, Dot, Edges, Field, Minimap, Pixel,
    Span, Terrain, Tile,
};
use ironvein::kinds::{tab, Kind};
use ironvein::menu::Overlay;
use ironvein::sectors::{own_region, set_regions, world_map_pick};
use ironvein::session::{Player, World};
use ironvein::sidebar::{
    button_rect, click_sidebar, credits_text, fit, header, stats_text, stock_text, tab_rect, units_text, Area, Place, SidebarHit,
    Stats, Wrap,
};

fn tile(terrain: Terrain, ore: u16, fog: u8) -> Tile {
    Tile { terrain, ore, yields: if ore > 0 { Some(1) } else { None }, fog }
}

/// Three tiles by two.
fn field() -> Field {
    Field {
        w: 3,
        h: 2,
        tiles: vec![
            tile(Terrain::Grass, 0, 2),
            tile(Terrain::Water, 0, 1),
            tile(Terrain::Rock, 0, 0),
            tile(Terrain::Dirt, 30, 2),
            tile(Terrain::Dirt, 30, 1),
            tile(Terrain::Snow, 30, 0),
        ],
        joined: true,
    }
}

#[test]
fn seams_run_between_classes() {
    use_edges(tile_edges(Terrain::Grass, Terrain::Tree, Terrain::Road, Terrain::Grass, Terrain::Sand), [false, true, false, true]);
    use_edges(tile_edges(Terrain::Snow, Terrain::Ice, Terrain::Water, Terrain::Lava, Terrain::Rock), [false, false, false, true]);
    use_edges(shoreline(Terrain::Water, Terrain::Grass, Terrain::Water, Terrain::Bridge), [false, true, false, true]);
}

fn use_edges(e: Edges, want: [bool; 4]) {
    assert_eq!([e.up, e.right, e.down, e.left], want);
}

#[test]
fn fog_is_per_tile() {
    let mut f = field();
    assert_eq!(tile_visible(&f, Tp::new(0, 0)), 2);
    assert_eq!(tile_visible(&f, Tp::new(1, 1)), 1);
    assert_eq!(tile_visible(&f, Tp::new(2, 0)), 0);
    assert_eq!(tile_visible(&f, Tp::new(3, 0)), 2);
    assert_eq!(tile_visible(&f, Tp::new(0, -1)), 2);
    assert_eq!(veil(&f, Tp::new(0, 0)), None);
    assert_eq!(veil(&f, Tp::new(1, 1)), Some(false));
    assert_eq!(veil(&f, Tp::new(2, 0)), Some(true));
    assert_eq!(resource_hint(&f, Tp::new(0, 1)), Some(1));
    assert_eq!(resource_hint(&f, Tp::new(1, 1)), Some(1));
    assert_eq!(resource_hint(&f, Tp::new(2, 1)), None);
    assert_eq!(resource_hint(&f, Tp::new(0, 0)), None);
    assert_eq!(resource_hint(&f, Tp::new(0, 2)), None);
    f.joined = false;
    assert_eq!(tile_visible(&f, Tp::new(2, 0)), 2);
    assert_eq!(veil(&f, Tp::new(2, 0)), None);
}

#[test]
fn tiles_are_painted_back_to_front() {
    let s = tiles_in_view(64, 48, Tp::new(2, -9), Tp::new(62, 10), 3, 5, 8);
    assert_eq!(s, Span { x0: 0, y0: 0, x1: 64, y1: 18 });
    let r = tiles(Span { x0: 4, y0: 7, x1: 6, y1: 9 });
    assert_eq!(r, vec![Tp::new(4, 7), Tp::new(5, 7), Tp::new(4, 8), Tp::new(5, 8)]);
    assert_eq!(tiles(Span { x0: 4, y0: 7, x1: 4, y1: 9 }), vec![]);
    assert_eq!(tiles(Span { x0: 4, y0: 7, x1: 6, y1: 2 }), vec![]);
    assert_eq!((crystals(0), crystals(220), crystals(65535)), (2, 4, 8));
}

#[test]
fn the_small_map_shows_what_is_known() {
    let f = field();
    let mut m = Minimap::new();
    let dots = vec![
        Dot { owner: 4, at: Tp::new(2, 0), fw: 0, fh: 0 },
        Dot { owner: 7, at: Tp::new(-1, 1), fw: 2, fh: 5 },
        Dot { owner: 5, at: Tp::new(0, 0), fw: 1, fh: 1 },
        Dot { owner: 1, at: Tp::new(1, 1), fw: 2, fh: 1 },
    ];
    let px = m.refresh(&f, &dots, 1).unwrap();
    assert_eq!(
        px,
        vec![
            Pixel::Player { pid: 5 },
            Pixel::Ground { terrain: Terrain::Water, dim: true },
            Pixel::Unseen,
            Pixel::Player { pid: 7 },
            Pixel::Player { pid: 1 },
            Pixel::Player { pid: 1 },
        ]
    );
    // then it rests
    for _ in 0..12 {
        assert!(m.refresh(&f, &dots, 1).is_none());
    }
    let px = m.refresh(&f, &vec![], 1).unwrap();
    assert_eq!(px[3], Pixel::Ore { dim: false });
    assert_eq!(px[4], Pixel::Ore { dim: true });
    assert_eq!(px[5], Pixel::Unseen);
}

#[test]
fn events_are_seen_and_heard() {
    assert_eq!(effect_ttl(VisEvent::Shot { rocket: true }), 300);
    assert_eq!(effect_ttl(VisEvent::Shot { rocket: false }), 140);
    assert_eq!(effect_ttl(VisEvent::Nuke), 2400);
    let evs = vec![(VisEvent::Built, 599), (VisEvent::Built, 600), (VisEvent::Pickup, 899)];
    assert_eq!(alive(&evs), vec![0, 2]);
    let c = cue(VisEvent::Shot { rocket: false });
    assert_eq!((c.name, c.other, c.percent), ("tank", Some("rifle"), 100));
    let c = cue(VisEvent::Die { big: false });
    assert_eq!((c.name, c.other, c.percent), ("explosion", None, 55));
    assert_eq!(cue(VisEvent::Nuke).percent, 200);
    assert_eq!(trauma(VisEvent::Nuke), Some(Trauma { shake: 90, most: 100, flash: 100 }));
    assert_eq!(trauma(VisEvent::Die { big: false }), Some(Trauma { shake: 10, most: 60, flash: 0 }));
    assert_eq!(trauma(VisEvent::Built), None);
    assert_eq!((loot_fade(10, 20, 300), loot_fade(350, 100, 300), loot_fade(400, 100, 300)), (150, 50, 0));
    assert!(health_shown(10, 10, true) && health_shown(9, 10, false));
    assert!(!health_shown(10, 10, false) && !health_shown(0, 10, false));
}

#[test]
fn dread_is_capped() {
    let calm = Dread { night: false, blood_moon: false, under_fire: false, boss: false, starving: false, low_power: false, near: 0 };
    assert_eq!(music_intensity(calm), 0);
    assert_eq!(music_intensity(Dread { night: true, ..calm }), 2200);
    assert_eq!(music_intensity(Dread { near: 4, ..calm }), 1500);
    assert_eq!(music_intensity(Dread { near: 400, ..calm }), 3000);
    assert_eq!(music_intensity(Dread { starving: true, low_power: true, ..calm }), 1000);
    assert_eq!(music_intensity(Dread { night: true, blood_moon: true, under_fire: true, boss: true, ..calm }), 10_000);
}

fn at(x: i32, y: i32) -> Place {
    Place { x0: x, x1: x, y0: y, y1: y }
}

#[test]
fn clicks_hit_what_is_drawn() {
    assert_eq!((header(false), header(true)), (218, 251));
    assert_eq!(tab_rect(true, true), Area { x: 88, y: 251, w: 80, h: 22 });
    assert_eq!(button_rect(3, false), Area { x: 88, y: 296, w: 80, h: 46 });
    let mut units = false;
    assert_eq!(click_sidebar(&mut units, true, at(-1, 300)), SidebarHit::Outside);
    assert_eq!(click_sidebar(&mut units, true, at(4, 279)), SidebarHit::Button { kind: Kind::EssenceReactor });
    assert_eq!(click_sidebar(&mut units, true, at(86, 279)), SidebarHit::Nothing);
    assert!(!units);
    assert_eq!(click_sidebar(&mut units, true, at(100, 260)), SidebarHit::Tab { units: true });
    assert!(units);
    for (i, k) in tab(true).into_iter().enumerate() {
        let a = button_rect(i, true);
        assert_eq!(click_sidebar(&mut units, true, at(a.x + a.w, a.y + a.h)), SidebarHit::Button { kind: k });
    }
    // between two pixels, past the border
    let a = button_rect(0, true);
    let p = Place { x0: a.x + a.w, x1: a.x + a.w + 1, y0: a.y, y1: a.y };
    assert_eq!(click_sidebar(&mut units, true, p), SidebarHit::Nothing);
    assert_eq!(click_sidebar(&mut units, true, at(20, 260)), SidebarHit::Tab { units: false });
    assert!(!units);
}

#[test]
fn the_bar_tells_numbers() {
    assert_eq!(credits_text(1234, 1300), "$    1234");
    assert_eq!(credits_text(-5, 1300), "$       0");
    assert_eq!(credits_text(99_999_999, 1), "$    1000");
    assert_eq!(stock_text("Wd", 40, 4), "Wd  40");
    assert_eq!(stock_text("Es", 12345, 3), "Es12345");
    assert_eq!(units_text(3, 8, 6000), "units  3/8    day 2");
    assert_eq!(units_text(12, 20, 5999), "units 12/20   day 1");
    let s = Stats { max_hp: 300, damage: 0, range: 0, power: 0, build_time: 94 };
    assert_eq!(stats_text(s), "HP 300   9s");
    assert_eq!(stats_text(Stats { build_time: 95, power: -20, ..s }), "HP 300   PWR -20   10s");
    assert_eq!(stats_text(Stats { power: 100, ..s }), "HP 300   PWR +100   9s");
    assert_eq!(stats_text(Stats { damage: 12, range: 5, power: 3, ..s }), "HP 300   DMG 12 (rng 5)   9s");
}

#[test]
fn texts_are_fitted() {
    assert_eq!(fit("Barracks", true, &vec![]), "Barracks");
    assert_eq!(fit("Barracks", false, &vec![true, true, true, false, true]), "Bar..");
    assert_eq!(fit("Ab", false, &vec![false, false]), "..");
    assert_eq!(fit("Ab", false, &vec![true, true]), "Ab..");
    let mut w = Wrap::new();
    for word in "Fast, fragile scout of the plains".split(' ') {
        let too_long = w.trial(word).len() > 13;
        w.place(word, too_long);
    }
    assert_eq!(w.finish(), vec!["Fast, fragile", "scout of the", "plains"]);
    let mut w = Wrap::new();
    w.place("unbreakable", true);
    assert_eq!(w.finish(), vec!["unbreakable"]);
    assert!(Wrap::new().finish().is_empty());
}

#[test]
fn one_escape_does_one_thing() {
    let mut c = Console::new();
    let mut o = Overlay::Closed;
    assert!(!front_keys(&mut c, &mut o, false, true, false));
    assert!(c.show_map);
    // escape closes the map, and opens nothing
    assert!(!front_keys(&mut c, &mut o, false, false, true));
    assert!(!c.show_map && matches!(o, Overlay::Closed));
    c.amove = true;
    assert!(!front_keys(&mut c, &mut o, false, false, true));
    c.amove = false;
    c.chat = Some(String::new());
    assert!(!front_keys(&mut c, &mut o, false, true, true));
    assert!(!c.show_map);
    c.chat = None;
    assert!(!front_keys(&mut c, &mut o, true, false, true));
    assert!(front_keys(&mut c, &mut o, false, false, true));
    assert!(matches!(o, Overlay::Pause));
    assert!(!front_keys(&mut c, &mut o, false, false, true));
}

fn thing(owner: u8, kind: u8) -> Ent {
    Ent {
        id: Eid { idx: 0, gen: 0 },
        owner,
        kind,
        building: true,
        unit: false,
        infantry: false,
        engineer: false,
        harvester: false,
        silo: false,
        depot: false,
        clinic: false,
        armed: false,
        hp: 1,
        done: true,
        charged: false,
    }
}

#[test]
fn the_reel_follows_the_action() {
    let unit = |owner: u8| Ent { building: false, unit: true, ..thing(owner, 3) };
    // the yard is of kind 9, the wild of owner 255
    let ents = vec![unit(255), unit(1), thing(2, 4), thing(0, 4), thing(2, 4), thing(1, 9), thing(0, 9)];
    let look = |shot: usize, ents: &Vec<Ent>, fx: Vec<VisEvent>| demo_focus(shot, 0, 255, 9, ents, &fx);
    assert_eq!(look(0, &ents, vec![]), Some(Focus::Ent(6)));
    assert_eq!(look(0, &vec![thing(0, 4)], vec![]), None);
    assert_eq!(look(1, &ents, vec![]), Some(Focus::Ent(2)), "a base without a yard");
    assert_eq!(look(1, &vec![thing(1, 4), thing(1, 9), thing(0, 9)], vec![]), Some(Focus::Ent(1)));
    assert_eq!(look(1, &vec![thing(0, 9), unit(1)], vec![]), None);
    assert_eq!(look(2, &ents, vec![VisEvent::Built, VisEvent::Die { big: true }, VisEvent::Shot { rocket: false }]), Some(Focus::Event(1)));
    assert_eq!(look(2, &ents, vec![VisEvent::Built]), Some(Focus::Ent(1)), "nothing wild");
    assert_eq!(look(3, &vec![thing(0, 9)], vec![VisEvent::Nuke]), None);
}

#[test]
fn inherited_bots_get_brains() {
    assert_eq!(unsteered(&vec![3, 5, 6], &vec![5]), vec![3, 6]);
    assert_eq!(unsteered(&vec![], &vec![5]), vec![]);
    let ents = vec![thing(2, 9), thing(1, 4), thing(1, 9), thing(1, 9)];
    assert_eq!(home(&ents, 1, 9), Some(2));
    assert_eq!(home(&ents, 2, 4), Some(0));
    assert_eq!(home(&ents, 3, 9), None);
}

#[test]
fn regions_come_from_beacons_or_from_home() {
    let b = Beacon {
        region: "B3".to_string(),
        host: [7; 32],
        tick: 90,
        players: 2,
        genesis: 5,
        controller: [9; 32],
        controller_name: "Ada".to_string(),
        private: false,
    };
    let r = set_regions(&vec![b]);
    assert_eq!(r.len(), 1);
    assert_eq!((r[0].id.as_str(), r[0].controller.as_str(), r[0].tick, r[0].players), ("B3", "Ada", 90, 2));
    assert_eq!((r[0].ctrl_key, r[0].host), ([9; 32], [7; 32]));
    let w = World {
        tick: 44,
        players: vec![
            Player { joined: true, name: "Ada".to_string(), key: [1; 32] },
            Player { joined: false, name: String::new(), key: [0; 32] },
        ],
    };
    let me = own_region("A1", &[3; 32], &w, Some(0));
    assert_eq!((me.controller.as_str(), me.ctrl_key, me.host, me.tick, me.players), ("Ada", [1; 32], [3; 32], 44, 1));
    let me = own_region("A1", &[3; 32], &w, None);
    assert_eq!((me.controller.as_str(), me.ctrl_key), ("", [0; 32]));
    assert_eq!(own_region("A1", &[3; 32], &w, Some(9)).controller, "");
    // cells are 62 pixels wide, with gaps of six between them
    let ids = vec!["B1".to_string(), "a2".to_string()];
    assert_eq!(world_map_pick(&ids, 68, 0), Some(0));
    assert_eq!(world_map_pick(&ids, 129, 61), Some(0));
    assert_eq!(world_map_pick(&ids, 130, 0), None);
    assert_eq!(world_map_pick(&ids, 67, 0), None);
    assert_eq!(world_map_pick(&ids, 0, 70), Some(1));
    assert_eq!(world_map_pick(&ids, -1, 70), None);
    assert_eq!(world_map_pick(&ids, 0, 68 * 8), None);
}
