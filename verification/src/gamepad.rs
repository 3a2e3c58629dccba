//! Controller input → `AppCommand`s: taps dispatch on press, held directions
//! (D-pad or left stick) auto-repeat navigation, and a held Select turns Y into
//! the quit chord. Time arrives as milliseconds on the caller's monotonic
//! clock; where the stick stands arrives already read against the dead zone.

use vstd::prelude::*;
use crate::command::{AppCommand, Direction};
use crate::keyboard::{key_command, Key, Keymap};

verus! {

/// The controller buttons the app answers; the rest are `Other`.
#[derive(Clone, Copy, PartialEq, Eq, Debug, Structural)]
pub enum PadButton {
    DPadUp,
    DPadDown,
    DPadLeft,
    DPadRight,
    A,
    B,
    X,
    Y,
    /// Select.
    Back,
    Start,
    LeftShoulder,
    RightShoulder,
    Other,
}

/// Where the left stick stands relative to the dead zone, with hysteresis:
/// past it (and which way), well back inside it, or in the band between,
/// where the current state holds.
#[derive(Clone, Copy, PartialEq, Eq, Debug, Structural)]
pub enum StickZone {
    Engaged(Direction),
    Released,
    Band,
}

/// Auto-repeat timing, in milliseconds.
#[derive(Clone, Copy, PartialEq, Eq, Debug, Structural)]
pub struct RepeatTiming {
    /// From the press to the first repeat.
    pub initial_delay_ms: u64,
    /// Between repeats after that.
    pub interval_ms: u64,
}

/// The direction being held and its repeat clock.
#[derive(Clone, Copy, PartialEq, Eq, Debug, Structural)]
pub struct Held {
    pub dir: Direction,
    pub pressed_at: u64,
    pub last_repeat: Option<u64>,
}

/// The controller's input state.
pub struct Gamepad {
    pub timing: RepeatTiming,
    /// Currently held direction (the last one pressed wins).
    pub held: Option<Held>,
    /// The stick folded into a digital direction.
    pub stick_dir: Option<Direction>,
    /// Select is held (the quit chord's anchor).
    pub select_held: bool,
}

/// The direction a D-pad button stands for.
pub open spec fn dpad_spec(b: PadButton) -> Option<Direction> {
    match b {
        PadButton::DPadUp => Some(Direction::Up),
        PadButton::DPadDown => Some(Direction::Down),
        PadButton::DPadLeft => Some(Direction::Left),
        PadButton::DPadRight => Some(Direction::Right),
        _ => None,
    }
}

/// The command a pressed non-direction, non-Select button gives.
pub open spec fn tap_spec(b: PadButton, select_held: bool) -> Option<AppCommand> {
    match b {
        PadButton::A => Some(AppCommand::Confirm),
        PadButton::B => Some(AppCommand::Back),
        PadButton::X => Some(AppCommand::Alt),
        PadButton::Y => if select_held {
            Some(AppCommand::Shutdown)
        } else {
            Some(AppCommand::TogglePin)
        },
        PadButton::Start => Some(AppCommand::Start),
        PadButton::LeftShoulder => Some(AppCommand::PageUp),
        PadButton::RightShoulder => Some(AppCommand::PageDown),
        _ => None,
    }
}

/// The D-pad: each of its four buttons stands for the direction it points,
/// no two for the same one, and no other button for any; pressing one moves
/// the way the keyboard's arrow key of the same name does, under any layout.
pub proof fn law_dpad_points_its_own_way(b: PadButton, c: PadButton, keymap: Keymap, repeat: bool)
    ensures
        dpad_spec(PadButton::DPadUp) == Some(Direction::Up),
        dpad_spec(PadButton::DPadDown) == Some(Direction::Down),
        dpad_spec(PadButton::DPadLeft) == Some(Direction::Left),
        dpad_spec(PadButton::DPadRight) == Some(Direction::Right),
        dpad_spec(b) is Some <==> (b == PadButton::DPadUp || b == PadButton::DPadDown || b == PadButton::DPadLeft
            || b == PadButton::DPadRight),
        dpad_spec(b) is Some && dpad_spec(b) == dpad_spec(c) ==> b == c,
        key_command(keymap, Key::Up, repeat) == Some(AppCommand::Nav(dpad_spec(PadButton::DPadUp).unwrap())),
        key_command(keymap, Key::Down, repeat) == Some(AppCommand::Nav(dpad_spec(PadButton::DPadDown).unwrap())),
        key_command(keymap, Key::Left, repeat) == Some(AppCommand::Nav(dpad_spec(PadButton::DPadLeft).unwrap())),
        key_command(keymap, Key::Right, repeat) == Some(AppCommand::Nav(dpad_spec(PadButton::DPadRight).unwrap())),
{
}

/// The commands `cmd` adds: itself, or nothing.
pub open spec fn one(cmd: Option<AppCommand>) -> Seq<AppCommand> {
    match cmd {
        Some(c) => seq![c],
        None => Seq::empty(),
    }
}

/// When the next repeat is due: the initial delay after the press, then an
/// interval after each repeat.
pub open spec fn due_at(h: Held, t: RepeatTiming) -> int {
    match h.last_repeat {
        None => h.pressed_at + t.initial_delay_ms,
        Some(last) => last + t.interval_ms,
    }
}

/// Whether a held direction's repeat is due at `now` (time before an anchor
/// counts as none elapsed).
pub open spec fn repeat_due(h: Held, t: RepeatTiming, now: u64) -> bool {
    match h.last_repeat {
        None => elapsed(h.pressed_at, now) >= t.initial_delay_ms,
        Some(last) => elapsed(last, now) >= t.interval_ms,
    }
}

/// Time from `since` to `now`, zero when `now` is earlier.
pub open spec fn elapsed(since: u64, now: u64) -> int {
    if now >= since {
        now - since
    } else {
        0
    }
}

fn dpad_dir(b: PadButton) -> (r: Option<Direction>)
    ensures
        r == dpad_spec(b),
{
    match b {
        PadButton::DPadUp => Some(Direction::Up),
        PadButton::DPadDown => Some(Direction::Down),
        PadButton::DPadLeft => Some(Direction::Left),
        PadButton::DPadRight => Some(Direction::Right),
        _ => None,
    }
}

impl Gamepad {
    /// Nothing held, the stick centred.
    pub fn new(timing: RepeatTiming) -> (g: Gamepad)
        ensures
            g.timing == timing,
            g.held is None,
            g.stick_dir is None,
            !g.select_held,
    {
        Gamepad { timing, held: None, stick_dir: None, select_held: false }
    }

    /// Whether the due time of the held direction fits the clock.
    pub open spec fn due_fits(&self) -> bool {
        self.held matches Some(h) ==> due_at(h, self.timing) <= u64::MAX
    }

    /// Milliseconds until the next auto-repeat is due (zero when overdue),
    /// `None` when nothing is held: the event loop must not block past it.
    pub fn next_repeat_in(&self, now: u64) -> (r: Option<u64>)
        requires
            self.due_fits(),
        ensures
            self.held is None ==> r is None,
            self.held matches Some(h) ==> r == Some(
                if due_at(h, self.timing) > now {
                    (due_at(h, self.timing) - now) as u64
                } else {
                    0u64
                },
            ),
    {
        let held = match &self.held {
            Some(h) => h,
            None => return None,
        };
        let due = match held.last_repeat {
            None => held.pressed_at + self.timing.initial_delay_ms,
            Some(last) => last + self.timing.interval_ms,
        };
        Some(
            if due > now {
                due - now
            } else {
                0
            },
        )
    }

    fn hold(&mut self, dir: Direction, now: u64)
        ensures
            final(self).held == Some(Held { dir, pressed_at: now, last_repeat: None }),
            final(self).timing == old(self).timing,
            final(self).stick_dir == old(self).stick_dir,
            final(self).select_held == old(self).select_held,
    {
        self.held = Some(Held { dir, pressed_at: now, last_repeat: None });
    }

    /// A button went down (`pressed`) or up at `now`. A D-pad press navigates
    /// and starts holding that direction; its release stops the hold when it
    /// is the one held. Select anchors the quit chord (its release matters
    /// too) and, pressed, refreshes the radar. Other buttons act on press.
    pub fn on_button(&mut self, button: PadButton, pressed: bool, now: u64, commands: &mut Vec<AppCommand>)
        ensures
            final(self).timing == old(self).timing,
            final(self).stick_dir == old(self).stick_dir,
            dpad_spec(button) matches Some(d) ==> {
                &&& pressed ==> final(commands)@ == old(commands)@.push(AppCommand::Nav(d))
                    && final(self).held == Some(Held { dir: d, pressed_at: now, last_repeat: None })
                &&& !pressed ==> final(commands)@ == old(commands)@ && final(self).held == (
                    if old(self).held matches Some(h) && h.dir == d {
                        None
                    } else {
                        old(self).held
                    })
                &&& final(self).select_held == old(self).select_held
            },
            dpad_spec(button) is None && button == PadButton::Back ==> {
                &&& final(self).select_held == pressed
                &&& final(commands)@ == old(commands)@ + (if pressed {
                    seq![AppCommand::ReAnnounce]
                } else {
                    Seq::empty()
                })
                &&& final(self).held == old(self).held
            },
            dpad_spec(button) is None && button != PadButton::Back ==> {
                &&& final(self).select_held == old(self).select_held
                &&& final(self).held == old(self).held
                &&& final(commands)@ == old(commands)@ + (if pressed {
                    one(tap_spec(button, old(self).select_held))
                } else {
                    Seq::empty()
                })
            },
    {
        if let Some(dir) = dpad_dir(button) {
            if pressed {
                commands.push(AppCommand::Nav(dir));
                self.hold(dir, now);
            } else {
                let release = match &self.held {
                    Some(h) => h.dir == dir,
                    None => false,
                };
                if release {
                    self.held = None;
                }
            }
            return;
        }
        if button == PadButton::Back {
            self.select_held = pressed;
            if pressed {
                commands.push(AppCommand::ReAnnounce);
            } else {
                assert(old(commands)@ + Seq::<AppCommand>::empty() == old(commands)@);
            }
            return;
        }
        if !pressed {
            assert(old(commands)@ + Seq::<AppCommand>::empty() == old(commands)@);
            return;
        }
        let cmd = match button {
            PadButton::A => Some(AppCommand::Confirm),
            PadButton::B => Some(AppCommand::Back),
            PadButton::X => Some(AppCommand::Alt),
            PadButton::Y => if self.select_held {
                Some(AppCommand::Shutdown)
            } else {
                Some(AppCommand::TogglePin)
            },
            PadButton::Start => Some(AppCommand::Start),
            PadButton::LeftShoulder => Some(AppCommand::PageUp),
            PadButton::RightShoulder => Some(AppCommand::PageDown),
            _ => None,
        };
        match cmd {
            Some(c) => commands.push(c),
            None => {
                assert(old(commands)@ + Seq::<AppCommand>::empty() == old(commands)@);
            },
        }
    }

    /// The stick moved at `now` and now stands in `zone`. Past the dead
    /// zone it reads as a direction, well inside it as none, and in the band
    /// between it keeps its state. A change releases the hold of the old
    /// direction (when that is the one held) and navigates and holds the new.
    pub fn on_stick(&mut self, zone: StickZone, now: u64, commands: &mut Vec<AppCommand>)
        ensures
            final(self).timing == old(self).timing,
            final(self).select_held == old(self).select_held,
            ({
                let dir = match zone {
                    StickZone::Engaged(d) => Some(d),
                    StickZone::Released => None,
                    StickZone::Band => old(self).stick_dir,
                };
                &&& final(self).stick_dir == dir
                &&& dir == old(self).stick_dir ==> final(self).held == old(self).held
                    && final(commands)@ == old(commands)@
                &&& dir != old(self).stick_dir ==> match dir {
                    Some(d) => final(commands)@ == old(commands)@.push(AppCommand::Nav(d))
                        && final(self).held == Some(Held { dir: d, pressed_at: now, last_repeat: None }),
                    None => final(commands)@ == old(commands)@ && final(self).held == (
                        if old(self).held matches Some(h) && old(self).stick_dir == Some(h.dir) {
                            None
                        } else {
                            old(self).held
                        }),
                }
            }),
    {
        let dir = match zone {
            StickZone::Engaged(d) => Some(d),
            StickZone::Released => None,
            StickZone::Band => self.stick_dir,
        };
        if dir != self.stick_dir {
            if let Some(old_dir) = self.stick_dir {
                let release = match &self.held {
                    Some(h) => h.dir == old_dir,
                    None => false,
                };
                if release {
                    self.held = None;
                }
            }
            if let Some(d) = dir {
                commands.push(AppCommand::Nav(d));
                self.hold(d, now);
            }
            self.stick_dir = dir;
        }
    }

    /// Fires the navigation repeat of the held direction when it is due at
    /// `now`. Called once per frame.
    pub fn tick(&mut self, now: u64, commands: &mut Vec<AppCommand>)
        ensures
            final(self).timing == old(self).timing,
            final(self).stick_dir == old(self).stick_dir,
            final(self).select_held == old(self).select_held,
            match old(self).held {
                None => final(self).held is None && final(commands)@ == old(commands)@,
                Some(h) => if repeat_due(h, old(self).timing, now) {
                    final(commands)@ == old(commands)@.push(AppCommand::Nav(h.dir))
                        && final(self).held == Some(Held { last_repeat: Some(now), ..h })
                } else {
                    final(commands)@ == old(commands)@ && final(self).held == Some(h)
                },
            },
    {
        let h = match self.held {
            Some(h) => h,
            None => return,
        };
        let due = match h.last_repeat {
            None => now.saturating_sub(h.pressed_at) >= self.timing.initial_delay_ms,
            Some(last) => now.saturating_sub(last) >= self.timing.interval_ms,
        };
        if due {
            commands.push(AppCommand::Nav(h.dir));
            self.held = Some(Held { dir: h.dir, pressed_at: h.pressed_at, last_repeat: Some(now) });
        }
    }
}

} // verus!
