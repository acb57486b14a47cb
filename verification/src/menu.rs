//! The front-end shell: the main menu and the in-game pause overlay, as machines that a frame's
//! input drives. Presentation only; nothing here touches the simulation or the network.

use vstd::prelude::*;

verus! {

/// How many manual save slots the save/load screen offers.
pub const SAVE_SLOTS: usize = 6;

/// What the player picked in the main menu.
#[derive(Clone, Copy, Debug, PartialEq, Eq, Structural)]
pub enum StartChoice {
    /// Begin a game. `survival` picks the mode, `difficulty` is 0, 1 or 2, and `continue_run`
    /// loads the existing save for that mode instead of a new one.
    Start { survival: bool, difficulty: u8, continue_run: bool },
    /// Load a manual save slot (1..=SAVE_SLOTS).
    LoadSlot(usize),
    Quit,
}

#[derive(Clone, Copy, Debug, PartialEq, Eq, Structural)]
pub enum Page {
    Main,
    /// difficulty / continue picker for the chosen mode
    Mode { survival: bool },
    /// the manual load-slot picker
    Load,
}

/// A button of the shell.
#[derive(Clone, Copy, Debug, PartialEq, Eq, Structural)]
pub enum Press {
    Nothing,
    Survival,
    Skirmish,
    LoadGame,
    Settings,
    Quit,
    Continue,
    Difficulty(u8),
    Slot(usize),
    Back,
    Resume,
    SaveGame,
}

/// What the menu knows of the saves on disk.
#[derive(Debug)]
pub struct Saves {
    pub survival: bool,
    pub skirmish: bool,
    /// which slots hold a save, slot 1 first
    pub slots: Vec<bool>,
}

impl Saves {
    /// Does slot `n` hold a save?
    pub open spec fn filled(&self, n: int) -> bool {
        1 <= n <= SAVE_SLOTS && n <= self.slots@.len() && self.slots@[n - 1]
    }

    /// Does any slot hold a save?
    pub open spec fn any(&self) -> bool {
        exists|n: int| #[trigger] self.filled(n)
    }

    /// Does slot `n` hold a save?
    pub fn is_filled(&self, n: usize) -> (r: bool)
        ensures
            r == self.filled(n as int),
    {
        1 <= n && n <= SAVE_SLOTS && n <= self.slots.len() && self.slots[n - 1]
    }

    /// Does any slot hold a save?
    pub fn any_filled(&self) -> (r: bool)
        ensures
            r == self.any(),
    {
        let mut n: usize = 1;
        while n <= SAVE_SLOTS
            invariant
                1 <= n <= SAVE_SLOTS + 1,
                forall|k: int| 1 <= k < n ==> !#[trigger] self.filled(k),
            decreases SAVE_SLOTS + 1 - n,
        {
            if self.is_filled(n) {
                return true;
            }
            n = n + 1;
        }
        false
    }

    /// Can a run of the mode be resumed?
    pub open spec fn resumable(&self, survival: bool) -> bool {
        if survival {
            self.survival
        } else {
            self.skirmish
        }
    }
}

/// The main menu's place.
#[derive(Clone, Copy, Debug, PartialEq, Eq, Structural)]
pub struct StartScreen {
    pub in_settings: bool,
    pub page: Page,
}

/// What a frame of the main menu led to.
#[derive(Clone, Copy, Debug, PartialEq, Eq, Structural)]
pub enum StartStep {
    Stay,
    /// the settings panel was closed: write the settings down
    SaveSettings,
    Chosen(StartChoice),
}

/// Is the button on the screen, and does it react?
pub open spec fn offered(s: StartScreen, saves: &Saves, p: Press) -> bool {
    if s.in_settings {
        p == Press::Back
    } else {
        match s.page {
            Page::Main => p == Press::Survival || p == Press::Skirmish || p == Press::Settings || p == Press::Quit || (p
                == Press::LoadGame && saves.any()),
            Page::Mode { survival } => p == Press::Back || (p == Press::Continue && saves.resumable(survival)) || (
            p matches Press::Difficulty(d) && d <= 2),
            Page::Load => p == Press::Back || (p matches Press::Slot(n) && saves.filled(n as int)),
        }
    }
}

/// Where an offered button leads.
pub open spec fn pressed(s: StartScreen, p: Press) -> (StartScreen, StartStep) {
    if s.in_settings {
        (StartScreen { in_settings: false, ..s }, StartStep::SaveSettings)
    } else {
        match p {
            Press::Survival => (StartScreen { page: Page::Mode { survival: true }, ..s }, StartStep::Stay),
            Press::Skirmish => (StartScreen { page: Page::Mode { survival: false }, ..s }, StartStep::Stay),
            Press::LoadGame => (StartScreen { page: Page::Load, ..s }, StartStep::Stay),
            Press::Settings => (StartScreen { in_settings: true, ..s }, StartStep::Stay),
            Press::Quit => (s, StartStep::Chosen(StartChoice::Quit)),
            Press::Continue => (
                s,
                StartStep::Chosen(
                    StartChoice::Start { survival: s.page->survival, difficulty: 1, continue_run: true },
                ),
            ),
            Press::Difficulty(d) => (
                s,
                StartStep::Chosen(
                    StartChoice::Start { survival: s.page->survival, difficulty: d, continue_run: false },
                ),
            ),
            Press::Slot(n) => (s, StartStep::Chosen(StartChoice::LoadSlot(n))),
            _ => (StartScreen { page: Page::Main, ..s }, StartStep::Stay),
        }
    }
}

impl StartScreen {
    pub fn new() -> (s: StartScreen)
        ensures
            s == (StartScreen { in_settings: false, page: Page::Main }),
    {
        StartScreen { in_settings: false, page: Page::Main }
    }

    /// Is the button on the screen, and does it react?
    pub fn offers(&self, saves: &Saves, p: Press) -> (r: bool)
        ensures
            r == offered(*self, saves, p),
    {
        if self.in_settings {
            return p == Press::Back;
        }
        match self.page {
            Page::Main => match p {
                Press::Survival | Press::Skirmish | Press::Settings | Press::Quit => true,
                Press::LoadGame => saves.any_filled(),
                _ => false,
            },
            Page::Mode { survival } => match p {
                Press::Back => true,
                Press::Continue => if survival {
                    saves.survival
                } else {
                    saves.skirmish
                },
                Press::Difficulty(d) => d <= 2,
                _ => false,
            },
            Page::Load => match p {
                Press::Back => true,
                Press::Slot(n) => saves.is_filled(n),
                _ => false,
            },
        }
    }

    /// One frame of the main menu: the button that was clicked, if any. A button that is not
    /// offered does nothing.
    pub fn step(&mut self, saves: &Saves, p: Press) -> (r: StartStep)
        ensures
            !offered(*old(self), saves, p) ==> *final(self) == *old(self) && r == StartStep::Stay,
            offered(*old(self), saves, p) ==> (*final(self), r) == pressed(*old(self), p),
    {
        if !self.offers(saves, p) {
            return StartStep::Stay;
        }
        if self.in_settings {
            self.in_settings = false;
            return StartStep::SaveSettings;
        }
        let survival: bool = match self.page {
            Page::Mode { survival } => survival,
            _ => false,
        };
        match p {
            Press::Survival => {
                self.page = Page::Mode { survival: true };
                StartStep::Stay
            },
            Press::Skirmish => {
                self.page = Page::Mode { survival: false };
                StartStep::Stay
            },
            Press::LoadGame => {
                self.page = Page::Load;
                StartStep::Stay
            },
            Press::Settings => {
                self.in_settings = true;
                StartStep::Stay
            },
            Press::Quit => StartStep::Chosen(StartChoice::Quit),
            Press::Continue => StartStep::Chosen(StartChoice::Start { survival, difficulty: 1, continue_run: true }),
            Press::Difficulty(d) => StartStep::Chosen(
                StartChoice::Start { survival, difficulty: d, continue_run: false },
            ),
            Press::Slot(n) => StartStep::Chosen(StartChoice::LoadSlot(n)),
            _ => {
                self.page = Page::Main;
                StartStep::Stay
            },
        }
    }
}

// ----------------------------------------------------------------------
// The pause overlay
// ----------------------------------------------------------------------

/// Drawn on top of the live game; never stops the simulation.
#[derive(Clone, Copy, Debug, PartialEq, Eq, Structural)]
pub enum Overlay {
    Closed,
    Pause,
    Settings,
    SaveSlots,
}

#[derive(Clone, Copy, Debug, PartialEq, Eq, Structural)]
pub enum OverlayResult {
    Nothing,
    Quit,
    SaveSlot(usize),
    /// the settings panel was closed: write the settings down
    SaveSettings,
}

/// Where a frame leads from an overlay: the button clicked, and whether ESC was pressed. ESC
/// closes a panel; in the pause menu a click on another panel's button goes there all the same.
pub open spec fn overlaid(o: Overlay, p: Press, esc: bool) -> (Overlay, OverlayResult) {
    match o {
        Overlay::Settings => if p == Press::Back || esc {
            (Overlay::Pause, OverlayResult::SaveSettings)
        } else {
            (o, OverlayResult::Nothing)
        },
        Overlay::SaveSlots => match p {
            Press::Slot(n) => if 1 <= n <= SAVE_SLOTS {
                (Overlay::Pause, OverlayResult::SaveSlot(n))
            } else if esc {
                (Overlay::Pause, OverlayResult::Nothing)
            } else {
                (o, OverlayResult::Nothing)
            },
            _ => if p == Press::Back || esc {
                (Overlay::Pause, OverlayResult::Nothing)
            } else {
                (o, OverlayResult::Nothing)
            },
        },
        Overlay::Pause => (
            if p == Press::SaveGame {
                Overlay::SaveSlots
            } else if p == Press::Settings {
                Overlay::Settings
            } else if p == Press::Resume || esc {
                Overlay::Closed
            } else {
                Overlay::Pause
            },
            if p == Press::Quit {
                OverlayResult::Quit
            } else {
                OverlayResult::Nothing
            },
        ),
        Overlay::Closed => (o, OverlayResult::Nothing),
    }
}

/// One frame of the pause overlay. `esc` should already exclude the frame it opened.
pub fn overlay_frame(overlay: &mut Overlay, p: Press, esc: bool) -> (r: OverlayResult)
    ensures
        (*final(overlay), r) == overlaid(*old(overlay), p, esc),
{
    match *overlay {
        Overlay::Settings => {
            if p == Press::Back || esc {
                *overlay = Overlay::Pause;
                OverlayResult::SaveSettings
            } else {
                OverlayResult::Nothing
            }
        },
        Overlay::SaveSlots => {
            match p {
                Press::Slot(n) => {
                    if 1 <= n && n <= SAVE_SLOTS {
                        *overlay = Overlay::Pause;
                        return OverlayResult::SaveSlot(n);
                    }
                },
                Press::Back => {
                    *overlay = Overlay::Pause;
                },
                _ => {},
            }
            if esc {
                *overlay = Overlay::Pause;
            }
            OverlayResult::Nothing
        },
        Overlay::Pause => {
            if p == Press::Resume || esc {
                *overlay = Overlay::Closed;
            }
            if p == Press::SaveGame {
                *overlay = Overlay::SaveSlots;
            }
            if p == Press::Settings {
                *overlay = Overlay::Settings;
            }
            if p == Press::Quit {
                OverlayResult::Quit
            } else {
                OverlayResult::Nothing
            }
        },
        Overlay::Closed => OverlayResult::Nothing,
    }
}

// ----------------------------------------------------------------------
// Laws
// ----------------------------------------------------------------------

/// From every page of the menu there is a way back to the main page, or out.
pub proof fn no_page_traps(s: StartScreen, saves: &Saves)
    ensures
        s.in_settings || s.page != Page::Main ==> offered(s, saves, Press::Back),
        s.in_settings ==> pressed(s, Press::Back) == (StartScreen { in_settings: false, ..s }, StartStep::SaveSettings),
        !s.in_settings && s.page != Page::Main ==> pressed(s, Press::Back) == (
            StartScreen { page: Page::Main, ..s },
            StartStep::Stay,
        ),
        !s.in_settings && s.page == Page::Main ==> offered(s, saves, Press::Quit),
{
}

/// Nothing is loaded that is not there: a run is continued, or a slot loaded, only where a save
/// exists.
pub proof fn only_what_exists_is_loaded(s: StartScreen, saves: &Saves, p: Press)
    requires
        offered(s, saves, p),
    ensures
        pressed(s, p).1 matches StartStep::Chosen(StartChoice::LoadSlot(n)) ==> saves.filled(n as int),
        pressed(s, p).1 matches StartStep::Chosen(StartChoice::Start { survival, difficulty, continue_run }) ==> difficulty <= 2
            && (continue_run ==> saves.resumable(survival)),
{
}

/// ESC, pressed alone, leaves any overlay within two frames.
pub proof fn escape_leads_out(o: Overlay)
    ensures
        overlaid(overlaid(o, Press::Nothing, true).0, Press::Nothing, true).0 == Overlay::Closed,
        overlaid(Overlay::Pause, Press::Nothing, true).0 == Overlay::Closed,
{
}

} // verus!
