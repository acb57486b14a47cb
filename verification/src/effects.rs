//! What an event on the field sounds like, how hard it shakes the camera and how long it is seen;
//! and how tense the music is.

use vstd::prelude::*;

verus! {

/// What happened on the field.
#[derive(Clone, Copy, Debug, PartialEq, Eq, Structural)]
pub enum VisEvent {
    Shot { rocket: bool },
    Die { big: bool },
    Built,
    Captured,
    Unload,
    Pickup,
    Nuke,
}

// ----------------------------------------------------------------------
// Sight
// ----------------------------------------------------------------------

/// How long an event is seen, in milliseconds.
pub open spec fn ttl_of(ev: VisEvent) -> u32 {
    match ev {
        VisEvent::Shot { rocket } => if rocket {
            300
        } else {
            140
        },
        VisEvent::Die { big } => if big {
            700
        } else {
            450
        },
        VisEvent::Built => 600,
        VisEvent::Captured => 800,
        VisEvent::Unload => 800,
        VisEvent::Pickup => 900,
        VisEvent::Nuke => 2400,
    }
}

/// How long an event is seen, in milliseconds.
pub fn effect_ttl(ev: VisEvent) -> (ms: u32)
    ensures
        ms == ttl_of(ev),
{
    match ev {
        VisEvent::Shot { rocket } => if rocket {
            300
        } else {
            140
        },
        VisEvent::Die { big } => if big {
            700
        } else {
            450
        },
        VisEvent::Built => 600,
        VisEvent::Captured => 800,
        VisEvent::Unload => 800,
        VisEvent::Pickup => 900,
        VisEvent::Nuke => 2400,
    }
}

/// Of `ages`, in milliseconds, which effects are still seen? Their places in the list, in order.
pub open spec fn alive_of(evs: Seq<(VisEvent, u32)>, n: int) -> Seq<usize>
    decreases n,
{
    if n <= 0 {
        Seq::empty()
    } else if evs[n - 1].1 < ttl_of(evs[n - 1].0) {
        alive_of(evs, n - 1).push((n - 1) as usize)
    } else {
        alive_of(evs, n - 1)
    }
}

/// The effects that are still seen, by their place in the list.
pub fn alive(evs: &Vec<(VisEvent, u32)>) -> (r: Vec<usize>)
    ensures
        r@ == alive_of(evs@, evs@.len() as int),
{
    let mut r: Vec<usize> = Vec::new();
    let mut i: usize = 0;
    while i < evs.len()
        invariant
            i <= evs@.len(),
            r@ == alive_of(evs@, i as int),
        decreases evs@.len() - i,
    {
        let (ev, age): (VisEvent, u32) = evs[i];
        if age < effect_ttl(ev) {
            r.push(i);
        }
        i = i + 1;
    }
    r
}

/// What is left of a thing that lies on the ground, in 150ths: it fades over its last ticks.
pub fn loot_fade(tick: u32, born: u32, ttl: u32) -> (n: u32)
    ensures
        n == ({
            let age = if tick < born {
                0
            } else {
                tick - born
            };
            if ttl <= age {
                0
            } else if ttl - age > 150 {
                150
            } else {
                ttl - age
            }
        }),
{
    let age: u32 = if tick < born {
        0
    } else {
        tick - born
    };
    if ttl <= age {
        0
    } else if ttl - age > 150 {
        150
    } else {
        ttl - age
    }
}

/// Does a health bar show? Over what is selected, and over what is hurt and lives.
pub fn health_shown(hp: i32, max_hp: i32, selected: bool) -> (r: bool)
    ensures
        r == (selected || 0 < hp < max_hp),
{
    selected || (hp < max_hp && hp > 0)
}

// ----------------------------------------------------------------------
// Sound
// ----------------------------------------------------------------------

/// A sound, or two in turn, and how loud: percent of what the distance leaves of it, never more
/// than full.
#[derive(Clone, Copy, Debug)]
pub struct Cue {
    pub name: &'static str,
    pub other: Option<&'static str>,
    pub percent: u32,
}

#[verifier::ext_equal]
pub ghost struct CueV {
    pub name: Seq<char>,
    pub other: Option<Seq<char>>,
    pub percent: u32,
}

impl View for Cue {
    type V = CueV;

    open spec fn view(&self) -> CueV {
        CueV {
            name: self.name@,
            other: match self.other {
                Some(o) => Some(o@),
                None => None,
            },
            percent: self.percent,
        }
    }
}

pub open spec fn single(name: Seq<char>, percent: u32) -> CueV {
    CueV { name, other: None, percent }
}

/// What an event sounds like.
pub open spec fn cue_of(ev: VisEvent) -> CueV {
    match ev {
        VisEvent::Shot { rocket } => if rocket {
            single("rocket"@, 100)
        } else {
            CueV { name: "tank"@, other: Some("rifle"@), percent: 100 }
        },
        VisEvent::Die { big } => if big {
            single("explosion"@, 100)
        } else {
            single("explosion"@, 55)
        },
        VisEvent::Built => single("build"@, 100),
        VisEvent::Captured => single("radar"@, 100),
        VisEvent::Unload => CueV { name: "mine"@, other: Some("harvest"@), percent: 100 },
        VisEvent::Pickup => single("harvest"@, 55),
        VisEvent::Nuke => single("explosion"@, 200),
    }
}

/// What an event sounds like.
pub fn cue(ev: VisEvent) -> (c: Cue)
    ensures
        c@ == cue_of(ev),
{
    match ev {
        VisEvent::Shot { rocket } => if rocket {
            Cue { name: "rocket", other: None, percent: 100 }
        } else {
            Cue { name: "tank", other: Some("rifle"), percent: 100 }
        },
        VisEvent::Die { big } => if big {
            Cue { name: "explosion", other: None, percent: 100 }
        } else {
            Cue { name: "explosion", other: None, percent: 55 }
        },
        VisEvent::Built => Cue { name: "build", other: None, percent: 100 },
        VisEvent::Captured => Cue { name: "radar", other: None, percent: 100 },
        VisEvent::Unload => Cue { name: "mine", other: Some("harvest"), percent: 100 },
        VisEvent::Pickup => Cue { name: "harvest", other: None, percent: 55 },
        VisEvent::Nuke => Cue { name: "explosion", other: None, percent: 200 },
    }
}

// ----------------------------------------------------------------------
// The camera
// ----------------------------------------------------------------------

/// How an event shakes the camera next to it: percent that are added, and what the shake stays
/// below; and percent of the flash.
#[derive(Clone, Copy, Debug, PartialEq, Eq, Structural)]
pub struct Trauma {
    pub shake: u32,
    pub most: u32,
    pub flash: u32,
}

pub open spec fn trauma_of(ev: VisEvent) -> Option<Trauma> {
    match ev {
        VisEvent::Nuke => Some(Trauma { shake: 90, most: 100, flash: 100 }),
        VisEvent::Die { big } => if big {
            Some(Trauma { shake: 30, most: 100, flash: 0 })
        } else {
            Some(Trauma { shake: 10, most: 60, flash: 0 })
        },
        VisEvent::Shot { rocket } => if rocket {
            Some(Trauma { shake: 6, most: 50, flash: 0 })
        } else {
            None
        },
        _ => None,
    }
}

/// How an event shakes the camera: a nuke next door rattles hard, most things not at all.
pub fn trauma(ev: VisEvent) -> (t: Option<Trauma>)
    ensures
        t == trauma_of(ev),
{
    match ev {
        VisEvent::Nuke => Some(Trauma { shake: 90, most: 100, flash: 100 }),
        VisEvent::Die { big } => if big {
            Some(Trauma { shake: 30, most: 100, flash: 0 })
        } else {
            Some(Trauma { shake: 10, most: 60, flash: 0 })
        },
        VisEvent::Shot { rocket } => if rocket {
            Some(Trauma { shake: 6, most: 50, flash: 0 })
        } else {
            None
        },
        _ => None,
    }
}

// ----------------------------------------------------------------------
// The music
// ----------------------------------------------------------------------

/// What makes the music tense.
#[derive(Clone, Copy, Debug, PartialEq, Eq, Structural)]
pub struct Dread {
    pub night: bool,
    pub blood_moon: bool,
    /// the base recently took fire
    pub under_fire: bool,
    /// a boss is on the field
    pub boss: bool,
    pub starving: bool,
    pub low_power: bool,
    /// monsters that mass near our territory
    pub near: usize,
}

/// The most that there is: music at full tension.
pub const FULL: u32 = 10_000;

pub open spec fn worth(b: bool, n: int) -> int {
    if b {
        n
    } else {
        0
    }
}

/// How tense the music is, in ten-thousandths: monsters near count up to eight.
pub open spec fn intensity_of(d: Dread) -> int {
    let x = worth(d.night, 2200) + worth(d.blood_moon, 1300) + worth(d.under_fire, 2800) + worth(d.boss, 4500) + worth(
        d.starving,
        600,
    ) + worth(d.low_power, 400) + 375 * (if d.near > 8 {
        8
    } else {
        d.near as int
    });
    if x > FULL {
        FULL as int
    } else {
        x
    }
}

fn part(b: bool, n: u32) -> (r: u32)
    ensures
        r == worth(b, n as int),
{
    if b {
        n
    } else {
        0
    }
}

/// How tense the music is, in ten-thousandths.
pub fn music_intensity(d: Dread) -> (x: u32)
    ensures
        x == intensity_of(d),
{
    let near: u32 = if d.near > 8 {
        8
    } else {
        d.near as u32
    };
    let x: u32 = part(d.night, 2200) + part(d.blood_moon, 1300) + part(d.under_fire, 2800) + part(d.boss, 4500) + part(
        d.starving,
        600,
    ) + part(d.low_power, 400) + 375 * near;
    if x > FULL {
        FULL
    } else {
        x
    }
}

/// Two states of the field, the second at least as bad as the first.
pub open spec fn worse(a: Dread, b: Dread) -> bool {
    &&& a.night ==> b.night
    &&& a.blood_moon ==> b.blood_moon
    &&& a.under_fire ==> b.under_fire
    &&& a.boss ==> b.boss
    &&& a.starving ==> b.starving
    &&& a.low_power ==> b.low_power
    &&& a.near <= b.near
}

/// The music never calms down when things get worse.
pub proof fn dread_builds(a: Dread, b: Dread)
    requires
        worse(a, b),
    ensures
        0 <= intensity_of(a) <= intensity_of(b) <= FULL,
{
}

} // verus!
