//! Keyboard controls: the desktop mirror of the gamepad, plus the layout
//! handhelds send when their pad arrives as key presses.

use vstd::prelude::*;
use crate::command::{AppCommand, Direction};
use crate::gamepad::{tap_spec, PadButton};
use crate::fspath::chars_equal;
use crate::text::chars_of;

verus! {

/// The keys the app answers; every other key is `Other`.
#[derive(Clone, Copy, PartialEq, Eq, Debug, Structural)]
pub enum Key {
    Up,
    Down,
    Left,
    Right,
    PageUp,
    PageDown,
    Return,
    KpEnter,
    Escape,
    AcBack,
    X,
    Backspace,
    F1,
    Tab,
    F5,
    Y,
    Space,
    LCtrl,
    LShift,
    LAlt,
    RCtrl,
    E,
    T,
    Other,
}

/// Which layout the keys arriving from the device follow.
#[derive(Clone, Copy, PartialEq, Eq, Debug, Structural)]
pub enum Keymap {
    Desktop,
    /// The pad sent as keys. `menu_quits` is the launcher saying it keeps no
    /// kill helper of its own, which leaves MENU to the app.
    MiyooMini { menu_quits: bool },
}

/// The layout chosen: `RETSEND_KEYMAP` (`keymap_var`) wins when set — `miyoo`
/// or `desktop`, anything else meaning desktop — else the `mmiyoo` video
/// driver gives the handheld away. MENU quits when `RETSEND_MENU_QUIT`
/// (`menu_quit_var`) is set to anything but `0`.
pub open spec fn detect_spec(
    video_driver: Seq<char>,
    keymap_var: Option<Seq<char>>,
    menu_quit_var: Option<Seq<char>>,
) -> Keymap {
    let miyoo = Keymap::MiyooMini {
        menu_quits: match menu_quit_var {
            Some(v) => v != "0"@,
            None => false,
        },
    };
    match keymap_var {
        Some(v) => if v == "miyoo"@ {
            miyoo
        } else {
            Keymap::Desktop
        },
        None => if video_driver == "mmiyoo"@ {
            miyoo
        } else {
            Keymap::Desktop
        },
    }
}

impl Default for Keymap {
    fn default() -> (k: Keymap)
        ensures
            k == Keymap::Desktop,
    {
        Keymap::Desktop
    }
}

impl Keymap {
    /// The layout for this run, from the video driver's name and the two
    /// environment settings (`None` when unset).
    pub fn detect(video_driver: &str, keymap_var: Option<&str>, menu_quit_var: Option<&str>) -> (k:
        Keymap)
        ensures
            k == detect_spec(
                video_driver@,
                match keymap_var {
                    Some(v) => Some(v@),
                    None => None,
                },
                match menu_quit_var {
                    Some(v) => Some(v@),
                    None => None,
                },
            ),
    {
        let menu_quits = match menu_quit_var {
            Some(v) => !chars_equal(&chars_of(v), "0"),
            None => false,
        };
        let miyoo = Keymap::MiyooMini { menu_quits };
        match keymap_var {
            Some(v) => if chars_equal(&chars_of(v), "miyoo") {
                miyoo
            } else {
                Keymap::Desktop
            },
            None => if chars_equal(&chars_of(video_driver), "mmiyoo") {
                miyoo
            } else {
                Keymap::Desktop
            },
        }
    }
}

/// The desktop layout's non-navigation keys.
pub open spec fn desktop_spec(key: Key) -> Option<AppCommand> {
    match key {
        Key::Return | Key::KpEnter => Some(AppCommand::Confirm),
        Key::Escape | Key::AcBack => Some(AppCommand::Back),
        Key::X | Key::Backspace => Some(AppCommand::Alt),
        Key::F1 => Some(AppCommand::Start),
        Key::Tab | Key::F5 => Some(AppCommand::ReAnnounce),
        Key::Y => Some(AppCommand::TogglePin),
        _ => None,
    }
}

/// The handheld pad, as keys. MENU (Escape) is the app's only where the
/// launcher hands it over.
pub open spec fn miyoo_spec(key: Key, menu_quits: bool) -> Option<AppCommand> {
    match key {
        Key::Escape => if menu_quits {
            Some(AppCommand::Shutdown)
        } else {
            None
        },
        Key::Space => Some(AppCommand::Confirm),
        Key::LCtrl => Some(AppCommand::Back),
        Key::LShift => Some(AppCommand::Alt),
        Key::LAlt => Some(AppCommand::TogglePin),
        Key::Return => Some(AppCommand::Start),
        Key::RCtrl => Some(AppCommand::ReAnnounce),
        Key::E => Some(AppCommand::PageUp),
        Key::T => Some(AppCommand::PageDown),
        _ => None,
    }
}

/// The command a key press gives: arrows and paging under every layout and
/// on OS key repeat too; anything else only on a fresh press, by layout.
pub open spec fn key_command(keymap: Keymap, key: Key, repeat: bool) -> Option<AppCommand> {
    match key {
        Key::Up => Some(AppCommand::Nav(Direction::Up)),
        Key::Down => Some(AppCommand::Nav(Direction::Down)),
        Key::Left => Some(AppCommand::Nav(Direction::Left)),
        Key::Right => Some(AppCommand::Nav(Direction::Right)),
        Key::PageUp => Some(AppCommand::PageUp),
        Key::PageDown => Some(AppCommand::PageDown),
        _ => if repeat {
            None
        } else {
            match keymap {
                Keymap::Desktop => desktop_spec(key),
                Keymap::MiyooMini { menu_quits } => miyoo_spec(key, menu_quits),
            }
        },
    }
}

/// OS key repeat only drives navigation: under any layout a repeated key
/// moves or pages, and never confirms, backs out or does anything else.
pub proof fn law_repeat_only_navigates(keymap: Keymap, key: Key)
    ensures
        key_command(keymap, key, true) matches Some(c) ==> (c is Nav || c is PageUp || c is PageDown),
{
}

/// Under the desktop layout, a fresh press confirms exactly when the key is
/// Enter (main or keypad); F1 alone gives Start; Escape or the browser Back
/// key backs out; X or Backspace gives the alternative action; Tab or F5
/// announces again; Y pins. Every other key but the arrows and paging keys
/// does nothing.
pub proof fn law_desktop_keys(key: Key)
    ensures
        key_command(Keymap::Desktop, key, false) == Some(AppCommand::Confirm) <==> (key == Key::Return || key
            == Key::KpEnter),
        key_command(Keymap::Desktop, key, false) == Some(AppCommand::Start) <==> key == Key::F1,
        key_command(Keymap::Desktop, key, false) == Some(AppCommand::Back) <==> (key == Key::Escape || key
            == Key::AcBack),
        key_command(Keymap::Desktop, key, false) == Some(AppCommand::Alt) <==> (key == Key::X || key == Key::Backspace),
        key_command(Keymap::Desktop, key, false) == Some(AppCommand::ReAnnounce) <==> (key == Key::Tab || key == Key::F5),
        key_command(Keymap::Desktop, key, false) == Some(AppCommand::TogglePin) <==> key == Key::Y,
        key_command(Keymap::Desktop, key, false) == Some(AppCommand::Shutdown) <==> false,
{
}

/// The desktop keys mirror the pad: Enter does what A does, Escape what B
/// does, X what X does, Y what Y does (Select not held), F1 what Start does,
/// and Tab what Select does.
pub proof fn law_desktop_keys_mirror_the_pad()
    ensures
        key_command(Keymap::Desktop, Key::Return, false) == tap_spec(PadButton::A, false),
        key_command(Keymap::Desktop, Key::KpEnter, false) == tap_spec(PadButton::A, false),
        key_command(Keymap::Desktop, Key::Escape, false) == tap_spec(PadButton::B, false),
        key_command(Keymap::Desktop, Key::X, false) == tap_spec(PadButton::X, false),
        key_command(Keymap::Desktop, Key::Y, false) == tap_spec(PadButton::Y, false),
        key_command(Keymap::Desktop, Key::F1, false) == tap_spec(PadButton::Start, false),
        key_command(Keymap::Desktop, Key::Tab, false) == Some(AppCommand::ReAnnounce),
{
}

/// The handheld's pad arriving as keys does what the same buttons do as a
/// controller: A (Space) confirms, B (left Ctrl) backs out, X (left Shift)
/// and Y (left Alt) as on the pad, Start (Return) starts, Select (right Ctrl)
/// announces again, L1 (E) and R1 (T) page; MENU (Escape) quits only where
/// the launcher hands it over.
pub proof fn law_miyoo_keys_mirror_the_pad(menu_quits: bool)
    ensures
        key_command(Keymap::MiyooMini { menu_quits }, Key::Space, false) == tap_spec(PadButton::A, false),
        key_command(Keymap::MiyooMini { menu_quits }, Key::LCtrl, false) == tap_spec(PadButton::B, false),
        key_command(Keymap::MiyooMini { menu_quits }, Key::LShift, false) == tap_spec(PadButton::X, false),
        key_command(Keymap::MiyooMini { menu_quits }, Key::LAlt, false) == tap_spec(PadButton::Y, false),
        key_command(Keymap::MiyooMini { menu_quits }, Key::Return, false) == tap_spec(PadButton::Start, false),
        key_command(Keymap::MiyooMini { menu_quits }, Key::RCtrl, false) == Some(AppCommand::ReAnnounce),
        key_command(Keymap::MiyooMini { menu_quits }, Key::E, false) == tap_spec(PadButton::LeftShoulder, false),
        key_command(Keymap::MiyooMini { menu_quits }, Key::T, false) == tap_spec(PadButton::RightShoulder, false),
        key_command(Keymap::MiyooMini { menu_quits }, Key::Escape, false) == (if menu_quits {
            Some(AppCommand::Shutdown)
        } else {
            None
        }),
{
}

/// The commands `cmd` adds to a list: itself, or nothing.
pub open spec fn pushed(cmd: Option<AppCommand>) -> Seq<AppCommand> {
    match cmd {
        Some(c) => seq![c],
        None => Seq::empty(),
    }
}

fn desktop(key: Key) -> (r: Option<AppCommand>)
    ensures
        r == desktop_spec(key),
{
    match key {
        Key::Return | Key::KpEnter => Some(AppCommand::Confirm),
        Key::Escape | Key::AcBack => Some(AppCommand::Back),
        Key::X | Key::Backspace => Some(AppCommand::Alt),
        Key::F1 => Some(AppCommand::Start),
        Key::Tab | Key::F5 => Some(AppCommand::ReAnnounce),
        Key::Y => Some(AppCommand::TogglePin),
        _ => None,
    }
}

fn miyoo_mini(key: Key, menu_quits: bool) -> (r: Option<AppCommand>)
    ensures
        r == miyoo_spec(key, menu_quits),
{
    match key {
        Key::Escape => if menu_quits {
            Some(AppCommand::Shutdown)
        } else {
            None
        },
        Key::Space => Some(AppCommand::Confirm),
        Key::LCtrl => Some(AppCommand::Back),
        Key::LShift => Some(AppCommand::Alt),
        Key::LAlt => Some(AppCommand::TogglePin),
        Key::Return => Some(AppCommand::Start),
        Key::RCtrl => Some(AppCommand::ReAnnounce),
        Key::E => Some(AppCommand::PageUp),
        Key::T => Some(AppCommand::PageDown),
        _ => None,
    }
}

/// A key press: appends the command it gives, if any.
pub fn on_key_down(keymap: Keymap, key: Key, repeat: bool, commands: &mut Vec<AppCommand>)
    ensures
        final(commands)@ == old(commands)@ + pushed(key_command(keymap, key, repeat)),
{
    let cmd = match key {
        Key::Up => Some(AppCommand::Nav(Direction::Up)),
        Key::Down => Some(AppCommand::Nav(Direction::Down)),
        Key::Left => Some(AppCommand::Nav(Direction::Left)),
        Key::Right => Some(AppCommand::Nav(Direction::Right)),
        Key::PageUp => Some(AppCommand::PageUp),
        Key::PageDown => Some(AppCommand::PageDown),
        _ => if repeat {
            None
        } else {
            match keymap {
                Keymap::Desktop => desktop(key),
                Keymap::MiyooMini { menu_quits } => miyoo_mini(key, menu_quits),
            }
        },
    };
    match cmd {
        Some(c) => {
            commands.push(c);
        },
        None => {
            assert(old(commands)@ + Seq::<AppCommand>::empty() == old(commands)@);
        },
    }
}

} // verus!
