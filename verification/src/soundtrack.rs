//! The sound layer's decisions: what is loaded, played and stopped, and when.
//!
//! Presentation only: nothing here feeds back into the simulation. Levels are named, not
//! computed; the mixer of the platform turns them into gains.

use crate::text::{chars_of, push_text, str_eq, string_of, text_of};
use vstd::prelude::*;

verus! {

/// How loud a sound starts.
#[derive(Clone, Copy, Debug, PartialEq, Eq, Structural)]
pub enum Level {
    /// silent; ridden up later
    Silent,
    /// the sound's own volume in the bank, its category slider and the master slider
    Bank,
    /// the music slider and the master slider
    Music,
}

/// What the sound backend is asked to do.
#[allow(inconsistent_fields)]
#[derive(Debug)]
pub enum SoundOp {
    /// Register the file of a sound.
    Load { name: &'static str, file: &'static str },
    /// Synthesise a sound and register its samples.
    Synth { name: &'static str },
    /// Start a loop.
    Start { name: &'static str, level: Level },
    /// Set the volume of a loop that runs.
    Gain { name: &'static str, level: Level },
    /// Stop a loop.
    Stop { name: &'static str },
}

#[allow(inconsistent_fields)]
#[verifier::ext_equal]
pub enum SoundOpV {
    Load { name: Seq<char>, file: Seq<char> },
    Synth { name: Seq<char> },
    Start { name: Seq<char>, level: Level },
    Gain { name: Seq<char>, level: Level },
    Stop { name: Seq<char> },
}

impl View for SoundOp {
    type V = SoundOpV;

    open spec fn view(&self) -> SoundOpV {
        match *self {
            SoundOp::Load { name, file } => SoundOpV::Load { name: name@, file: file@ },
            SoundOp::Synth { name } => SoundOpV::Synth { name: name@ },
            SoundOp::Start { name, level } => SoundOpV::Start { name: name@, level },
            SoundOp::Gain { name, level } => SoundOpV::Gain { name: name@, level },
            SoundOp::Stop { name } => SoundOpV::Stop { name: name@ },
        }
    }
}

pub open spec fn ops_view(v: Seq<SoundOp>) -> Seq<SoundOpV> {
    Seq::new(v.len(), |i: int| v[i]@)
}

// ----------------------------------------------------------------------
// The stems
// ----------------------------------------------------------------------

/// How many layers the adaptive soundtrack has. All are the same length and loop-aligned, so
/// playing them in sync reconstructs the master mix.
pub const STEMS: usize = 7;

/// The layers: the pads are the always-on bed; the tension layer only roars in when a boss
/// walks or you're being overrun.
pub open spec fn stem(i: int) -> (Seq<char>, Seq<char>) {
    if i == 0 {
        ("st_pads"@, "stem_pads.ogg"@)
    } else if i == 1 {
        ("st_bass"@, "stem_bass.ogg"@)
    } else if i == 2 {
        ("st_kick"@, "stem_kick.ogg"@)
    } else if i == 3 {
        ("st_snare"@, "stem_snare_hats.ogg"@)
    } else if i == 4 {
        ("st_arps"@, "stem_arps_lead.ogg"@)
    } else if i == 5 {
        ("st_guitars"@, "stem_guitars.ogg"@)
    } else {
        ("st_psycho"@, "stem_psycho_tension.ogg"@)
    }
}

/// The name and the file of a layer.
pub fn stem_of(i: usize) -> (r: (&'static str, &'static str))
    requires
        i < STEMS,
    ensures
        (r.0@, r.1@) == stem(i as int),
{
    if i == 0 {
        ("st_pads", "stem_pads.ogg")
    } else if i == 1 {
        ("st_bass", "stem_bass.ogg")
    } else if i == 2 {
        ("st_kick", "stem_kick.ogg")
    } else if i == 3 {
        ("st_snare", "stem_snare_hats.ogg")
    } else if i == 4 {
        ("st_arps", "stem_arps_lead.ogg")
    } else if i == 5 {
        ("st_guitars", "stem_guitars.ogg")
    } else {
        ("st_psycho", "stem_psycho_tension.ogg")
    }
}

/// Bring the layers up in lockstep, at silence.
pub open spec fn stems_started() -> Seq<SoundOpV> {
    Seq::new(STEMS as nat, |i: int| SoundOpV::Start { name: stem(i).0, level: Level::Silent })
}

/// Load the layers from their files, or synthesise them.
pub open spec fn stems_loaded(from_files: bool) -> Seq<SoundOpV> {
    Seq::new(
        STEMS as nat,
        |i: int|
            if from_files {
                SoundOpV::Load { name: stem(i).0, file: stem(i).1 }
            } else {
                SoundOpV::Synth { name: stem(i).0 }
            },
    )
}

fn start_stems(out: &mut Vec<SoundOp>)
    ensures
        ops_view(final(out)@) == ops_view(old(out)@) + stems_started(),
{
    let ghost base = ops_view(out@);
    let mut i: usize = 0;
    proof {
        assert(ops_view(out@) =~= base + stems_started().take(0));
    }
    while i < STEMS
        invariant
            i <= STEMS,
            ops_view(out@) == base + stems_started().take(i as int),
        decreases STEMS - i,
    {
        let ghost before = out@;
        out.push(SoundOp::Start { name: stem_of(i).0, level: Level::Silent });
        proof {
            assert(ops_view(out@) =~= ops_view(before).push(stems_started()[i as int]));
            assert(stems_started().take(i + 1) =~= stems_started().take(i as int).push(stems_started()[i as int]));
            assert(ops_view(out@) =~= base + stems_started().take(i + 1));
        }
        i = i + 1;
    }
    proof {
        assert(stems_started().take(i as int) =~= stems_started());
    }
}

// ----------------------------------------------------------------------
// The mixer
// ----------------------------------------------------------------------

/// What plays.
#[derive(Clone, Copy, Debug, PartialEq, Eq, Structural)]
pub struct Mixer {
    /// the layered soundtrack is in use
    pub adaptive: bool,
    /// the title-screen theme is looping
    pub title_on: bool,
    /// the player is in the netherealm: its bed plays, and the layers duck to silence
    pub nether_on: bool,
    /// how many variant sounds were picked
    pub picks: u32,
}

impl Mixer {
    pub fn new() -> (m: Mixer)
        ensures
            m == (Mixer { adaptive: false, title_on: false, nether_on: false, picks: 0 }),
    {
        Mixer { adaptive: false, title_on: false, nether_on: false, picks: 0 }
    }

    /// Synthesise (or load, where all the files are there) the layers and start them looping.
    pub fn prepare_music(&mut self, from_files: bool) -> (r: Vec<SoundOp>)
        ensures
            ops_view(r@) == stems_loaded(from_files) + stems_started(),
            *final(self) == (Mixer { adaptive: true, ..*old(self) }),
    {
        let mut out: Vec<SoundOp> = Vec::new();
        let ghost all = stems_loaded(from_files);
        let mut i: usize = 0;
        proof {
            assert(ops_view(out@) =~= all.take(0));
        }
        while i < STEMS
            invariant
                i <= STEMS,
                all == stems_loaded(from_files),
                ops_view(out@) == all.take(i as int),
            decreases STEMS - i,
        {
            let ghost before = out@;
            let s: (&'static str, &'static str) = stem_of(i);
            if from_files {
                out.push(SoundOp::Load { name: s.0, file: s.1 });
            } else {
                out.push(SoundOp::Synth { name: s.0 });
            }
            proof {
                assert(ops_view(out@) =~= ops_view(before).push(all[i as int]));
                assert(all.take(i + 1) =~= all.take(i as int).push(all[i as int]));
            }
            i = i + 1;
        }
        proof {
            assert(all.take(i as int) =~= all);
        }
        start_stems(&mut out);
        self.adaptive = true;
        out
    }

    /// Synthesise the title-screen theme and start it looping.
    pub fn prepare_title(&mut self) -> (r: Vec<SoundOp>)
        ensures
            ops_view(r@) == seq![
                SoundOpV::Synth { name: "title"@ },
                SoundOpV::Start { name: "title"@, level: Level::Music },
            ],
            *final(self) == (Mixer { title_on: true, ..*old(self) }),
    {
        let mut out: Vec<SoundOp> = Vec::new();
        out.push(SoundOp::Synth { name: "title" });
        out.push(SoundOp::Start { name: "title", level: Level::Music });
        self.title_on = true;
        proof {
            assert(ops_view(out@) =~= seq![
                SoundOpV::Synth { name: "title"@ },
                SoundOpV::Start { name: "title"@, level: Level::Music },
            ]);
        }
        out
    }

    /// Stop the title-screen theme (the game soundtrack takes over from here).
    pub fn stop_title(&mut self) -> (r: Vec<SoundOp>)
        ensures
            ops_view(r@) == if old(self).title_on {
                seq![SoundOpV::Stop { name: "title"@ }]
            } else {
                Seq::empty()
            },
            *final(self) == (Mixer { title_on: false, ..*old(self) }),
    {
        let mut out: Vec<SoundOp> = Vec::new();
        if self.title_on {
            out.push(SoundOp::Stop { name: "title" });
        }
        self.title_on = false;
        proof {
            assert(ops_view(out@) =~= if old(self).title_on {
                seq![SoundOpV::Stop { name: "title"@ }]
            } else {
                Seq::empty()
            });
        }
        out
    }

    /// Synthesise the netherealm bed and start it looping at silence, so the descent never
    /// hitches.
    pub fn prepare_nether(&self) -> (r: Vec<SoundOp>)
        ensures
            ops_view(r@) == seq![
                SoundOpV::Synth { name: "nether"@ },
                SoundOpV::Start { name: "nether"@, level: Level::Silent },
            ],
    {
        let mut out: Vec<SoundOp> = Vec::new();
        out.push(SoundOp::Synth { name: "nether" });
        out.push(SoundOp::Start { name: "nether", level: Level::Silent });
        proof {
            assert(ops_view(out@) =~= seq![
                SoundOpV::Synth { name: "nether"@ },
                SoundOpV::Start { name: "nether"@, level: Level::Silent },
            ]);
        }
        out
    }

    /// Tell whether the player is in the netherealm.
    pub fn set_nether(&mut self, active: bool)
        ensures
            *final(self) == (Mixer { nether_on: active, ..*old(self) }),
    {
        self.nether_on = active;
    }

    /// What the netherealm bed glides to.
    pub fn nether_level(&self) -> (l: Level)
        ensures
            l == (if self.nether_on { Level::Music } else { Level::Silent }),
    {
        if self.nether_on {
            Level::Music
        } else {
            Level::Silent
        }
    }

    /// Is the layered soundtrack in use?
    pub fn adaptive_music(&self) -> (r: bool)
        ensures
            r == self.adaptive,
    {
        self.adaptive
    }

    /// What the layers are scaled by; nothing where they are not in use.
    pub fn stem_level(&self) -> (l: Option<Level>)
        ensures
            l == if !self.adaptive {
                None
            } else if self.nether_on {
                Some(Level::Silent)
            } else {
                Some(Level::Music)
            },
    {
        if !self.adaptive {
            None
        } else if self.nether_on {
            Some(Level::Silent)
        } else {
            Some(Level::Music)
        }
    }

    /// Once every layer has been fetched, go over from the master loop to the layers. Nothing
    /// once they are in use.
    pub fn poll_adaptive(&mut self, have: &[bool]) -> (r: Vec<SoundOp>)
        requires
            have@.len() == STEMS,
        ensures
            ({
                let go = !old(self).adaptive && forall|i: int| 0 <= i < STEMS ==> #[trigger] have@[i];
                &&& go ==> ops_view(r@) == seq![SoundOpV::Stop { name: "music"@ }] + stems_started() && *final(self) == (Mixer {
                    adaptive: true,
                    ..*old(self)
                })
                &&& !go ==> r@.len() == 0 && *final(self) == *old(self)
            }),
    {
        let mut out: Vec<SoundOp> = Vec::new();
        if self.adaptive {
            return out;
        }
        let mut i: usize = 0;
        while i < STEMS
            invariant
                i <= STEMS,
                have@.len() == STEMS,
                out@.len() == 0,
                *self == *old(self),
                !self.adaptive,
                forall|k: int| 0 <= k < i ==> #[trigger] have@[k],
            decreases STEMS - i,
        {
            if !have[i] {
                return out;
            }
            i = i + 1;
        }
        out.push(SoundOp::Stop { name: "music" });
        proof {
            assert(ops_view(out@) =~= seq![SoundOpV::Stop { name: "music"@ }]);
        }
        start_stems(&mut out);
        self.adaptive = true;
        out
    }

    /// Start the looping ambience, so the menu isn't silent before music is ready.
    pub fn start_ambience(&self) -> (r: Vec<SoundOp>)
        ensures
            ops_view(r@) == seq![
                SoundOpV::Start { name: "wind"@, level: Level::Bank },
                SoundOpV::Start { name: "water"@, level: Level::Bank },
            ],
    {
        let mut out: Vec<SoundOp> = Vec::new();
        out.push(SoundOp::Start { name: "wind", level: Level::Bank });
        out.push(SoundOp::Start { name: "water", level: Level::Bank });
        proof {
            assert(ops_view(out@) =~= seq![
                SoundOpV::Start { name: "wind"@, level: Level::Bank },
                SoundOpV::Start { name: "water"@, level: Level::Bank },
            ]);
        }
        out
    }

    /// Push new levels live to what is running: the ambience, and the title theme while it
    /// plays. (The layers are ridden every frame.)
    pub fn volumes_changed(&self) -> (r: Vec<SoundOp>)
        ensures
            ops_view(r@) == {
                let beds = seq![
                    SoundOpV::Gain { name: "wind"@, level: Level::Bank },
                    SoundOpV::Gain { name: "water"@, level: Level::Bank },
                ];
                if self.title_on {
                    beds.push(SoundOpV::Gain { name: "title"@, level: Level::Music })
                } else {
                    beds
                }
            },
    {
        let mut out: Vec<SoundOp> = Vec::new();
        out.push(SoundOp::Gain { name: "wind", level: Level::Bank });
        out.push(SoundOp::Gain { name: "water", level: Level::Bank });
        if self.title_on {
            out.push(SoundOp::Gain { name: "title", level: Level::Music });
        }
        proof {
            let beds = seq![
                SoundOpV::Gain { name: "wind"@, level: Level::Bank },
                SoundOpV::Gain { name: "water"@, level: Level::Bank },
            ];
            assert(ops_view(out@) =~= if self.title_on {
                beds.push(SoundOpV::Gain { name: "title"@, level: Level::Music })
            } else {
                beds
            });
        }
        out
    }

    /// Toggling pick between two variant sounds, so repeated shots don't sound like a copy
    /// machine: the first one, then the second, and so on in turn.
    pub fn either<'a>(&mut self, a: &'a str, b: &'a str) -> (r: &'a str)
        ensures
            r@ == (if old(self).picks % 2 == 0 { a@ } else { b@ }),
            *final(self) == (Mixer { picks: old(self).picks.wrapping_add(1), ..*old(self) }),
    {
        let n: u32 = self.picks;
        self.picks = n.wrapping_add(1);
        if n % 2 == 0 {
            a
        } else {
            b
        }
    }
}

/// Does the music slider control the sound? The effects slider controls everything else.
pub fn is_music(name: &str) -> (r: bool)
    ensures
        r == (name@ == "wind"@ || name@ == "water"@),
{
    str_eq(name, "wind") || str_eq(name, "water")
}

// ----------------------------------------------------------------------
// Files
// ----------------------------------------------------------------------

/// Is the text an `.ogg` file's name?
pub open spec fn is_ogg(url: Seq<char>) -> bool {
    url.len() >= 4 && url.skip(url.len() - 4) == ".ogg"@
}

/// The `.wav` sibling of an `.ogg` file.
pub open spec fn wav_sibling(url: Seq<char>) -> Option<Seq<char>> {
    if is_ogg(url) {
        Some(url.take(url.len() - 4) + ".wav"@)
    } else {
        None
    }
}

/// The uncompressed sibling of a compressed file.
pub fn wav_of(url: &str) -> (r: Option<String>)
    ensures
        match wav_sibling(url@) {
            Some(s) => r is Some && r->0@ == s,
            None => r is None,
        },
{
    let v: Vec<char> = chars_of(url);
    let n: usize = v.len();
    if n < 4 {
        return None;
    }
    let tail: String = string_of(&v, n - 4, n);
    proof {
        assert(tail@ =~= url@.skip(n - 4));
    }
    if !str_eq(tail.as_str(), ".ogg") {
        return None;
    }
    let mut out: String = string_of(&v, 0, n - 4);
    proof {
        assert(out@ =~= url@.take(n - 4));
    }
    push_text(&mut out, ".wav");
    Some(out)
}

/// The file to read for a sound: the uncompressed sibling where there is one.
pub fn source_path(url: &str, sibling_exists: bool) -> (r: String)
    ensures
        r@ == match wav_sibling(url@) {
            Some(s) => if sibling_exists {
                s
            } else {
                url@
            },
            None => url@,
        },
{
    match wav_of(url) {
        Some(wav) => {
            if sibling_exists {
                wav
            } else {
                text_of(url)
            }
        },
        None => text_of(url),
    }
}

// ----------------------------------------------------------------------
// The score
// ----------------------------------------------------------------------

/// The sections of the music loop with their lengths in beats: quiet verse, groove, arps,
/// tension, lift; then it starts over.
pub open spec fn section(i: int) -> (Seq<char>, nat) {
    if i == 0 {
        ("SOFT_VERSE"@, 32)
    } else if i == 1 {
        ("GROOVE"@, 16)
    } else if i == 2 {
        ("GROOVE_ARPS"@, 24)
    } else if i == 3 {
        ("TENSION"@, 16)
    } else {
        ("LIFT"@, 24)
    }
}

pub const SECTIONS: usize = 5;

/// The beat at which section `i` starts.
pub open spec fn section_start(i: int) -> nat
    decreases i,
{
    if i <= 0 {
        0
    } else {
        section_start(i - 1) + section(i - 1).1
    }
}

/// A section of the music loop.
pub fn section_of(i: usize) -> (r: (&'static str, usize))
    requires
        i < SECTIONS,
    ensures
        (r.0@, r.1 as nat) == section(i as int),
{
    if i == 0 {
        ("SOFT_VERSE", 32)
    } else if i == 1 {
        ("GROOVE", 16)
    } else if i == 2 {
        ("GROOVE_ARPS", 24)
    } else if i == 3 {
        ("TENSION", 16)
    } else {
        ("LIFT", 24)
    }
}

/// The length of the music loop, in beats.
pub fn total_beats() -> (n: usize)
    ensures
        n == section_start(SECTIONS as int),
        n == 112,
{
    let mut n: usize = 0;
    let mut i: usize = 0;
    while i < SECTIONS
        invariant
            i <= SECTIONS,
            n == section_start(i as int),
            n <= 32 * i,
        decreases SECTIONS - i,
    {
        n = n + section_of(i).1;
        i = i + 1;
    }
    proof {
        reveal_with_fuel(section_start, 6);
    }
    n
}

/// The place of a pitch class in the octave; an unknown one counts as C.
pub open spec fn pitch_class(name: Seq<char>) -> int {
    if name == "C#"@ {
        1
    } else if name == "D"@ {
        2
    } else if name == "D#"@ {
        3
    } else if name == "E"@ {
        4
    } else if name == "F"@ {
        5
    } else if name == "F#"@ {
        6
    } else if name == "G"@ {
        7
    } else if name == "G#"@ {
        8
    } else if name == "A"@ {
        9
    } else if name == "A#"@ {
        10
    } else if name == "B"@ {
        11
    } else {
        0
    }
}

/// The octave that the last character of a note names; the fourth if it names none.
pub open spec fn octave_of(c: char) -> int {
    if '0' <= c <= '9' {
        c as u32 - 48
    } else {
        4
    }
}

/// How many semitones a note such as `F#5` lies above A4; nothing for the rest `R`.
pub open spec fn semitones_of(note: Seq<char>) -> Option<int> {
    if note == "R"@ {
        None
    } else {
        Some(pitch_class(note.drop_last()) - 9 + (octave_of(note.last()) - 4) * 12)
    }
}

fn class_of(name: &str) -> (r: i32)
    ensures
        r == pitch_class(name@),
        0 <= r < 12,
{
    if str_eq(name, "C#") {
        1
    } else if str_eq(name, "D") {
        2
    } else if str_eq(name, "D#") {
        3
    } else if str_eq(name, "E") {
        4
    } else if str_eq(name, "F") {
        5
    } else if str_eq(name, "F#") {
        6
    } else if str_eq(name, "G") {
        7
    } else if str_eq(name, "G#") {
        8
    } else if str_eq(name, "A") {
        9
    } else if str_eq(name, "A#") {
        10
    } else if str_eq(name, "B") {
        11
    } else {
        0
    }
}

/// How many semitones a note lies above A4; nothing for the rest.
pub fn semitones(note: &str) -> (r: Option<i32>)
    requires
        note@.len() > 0,
        (note@.last() as u32) < 128,
    ensures
        match semitones_of(note@) {
            Some(n) => r is Some && r->0 == n,
            None => r is None,
        },
{
    if str_eq(note, "R") {
        return None;
    }
    let v: Vec<char> = chars_of(note);
    let n: usize = v.len();
    let name: String = string_of(&v, 0, n - 1);
    proof {
        assert(name@ =~= note@.drop_last());
    }
    let c: char = v[n - 1];
    let octave: i32 = if '0' <= c && c <= '9' { c as i32 - 48 } else { 4 };
    Some(class_of(name.as_str()) - 9 + (octave - 4) * 12)
}

} // verus!
