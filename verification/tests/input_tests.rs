use retsend::command::{AppCommand, Direction};
use retsend::gamepad::{Gamepad, Held, PadButton, RepeatTiming, StickZone};
use retsend::keyboard::{on_key_down, Key, Keymap};

fn timing() -> RepeatTiming {
    RepeatTiming { initial_delay_ms: 400, interval_ms: 120 }
}

#[test]
fn x_and_backspace_erase_while_escape_backs_out() {
    let mut commands = Vec::new();
    on_key_down(Keymap::Desktop, Key::X, false, &mut commands);
    on_key_down(Keymap::Desktop, Key::Backspace, false, &mut commands);
    on_key_down(Keymap::Desktop, Key::Escape, false, &mut commands);
    assert_eq!(commands, vec![AppCommand::Alt, AppCommand::Alt, AppCommand::Back]);
}

#[test]
fn y_pins_and_does_not_repeat() {
    let mut commands = Vec::new();
    on_key_down(Keymap::Desktop, Key::Y, false, &mut commands);
    assert_eq!(commands, vec![AppCommand::TogglePin]);

    // Holding it must not toggle over and over.
    commands.clear();
    on_key_down(Keymap::Desktop, Key::Y, true, &mut commands);
    assert!(commands.is_empty());
}

#[test]
fn the_miyoo_pad_maps_a_to_confirm_and_start_to_start() {
    let miyoo = Keymap::MiyooMini { menu_quits: false };
    let mut commands = Vec::new();
    on_key_down(miyoo, Key::Space, false, &mut commands);
    on_key_down(miyoo, Key::LCtrl, false, &mut commands);
    on_key_down(miyoo, Key::Return, false, &mut commands);
    assert_eq!(commands, vec![AppCommand::Confirm, AppCommand::Back, AppCommand::Start]);
}

/// MENU is the launcher's key until a launcher says otherwise, and it is
/// never the desktop's Escape, which backs out of a screen.
#[test]
fn menu_quits_only_where_the_launcher_hands_it_over() {
    let mut commands = Vec::new();
    on_key_down(Keymap::MiyooMini { menu_quits: false }, Key::Escape, false, &mut commands);
    assert!(commands.is_empty());

    on_key_down(Keymap::MiyooMini { menu_quits: true }, Key::Escape, false, &mut commands);
    assert_eq!(commands, vec![AppCommand::Shutdown]);
}

#[test]
fn arrows_navigate_under_either_layout() {
    for keymap in [Keymap::Desktop, Keymap::MiyooMini { menu_quits: true }] {
        let mut commands = Vec::new();
        on_key_down(keymap, Key::Up, false, &mut commands);
        assert_eq!(commands, vec![AppCommand::Nav(Direction::Up)]);
    }
}

#[test]
fn a_held_arrow_repeats_but_a_held_confirm_does_not() {
    let mut commands = Vec::new();
    on_key_down(Keymap::Desktop, Key::Down, true, &mut commands);
    on_key_down(Keymap::Desktop, Key::PageDown, true, &mut commands);
    on_key_down(Keymap::Desktop, Key::Return, true, &mut commands);
    on_key_down(Keymap::MiyooMini { menu_quits: true }, Key::Escape, true, &mut commands);
    assert_eq!(commands, vec![AppCommand::Nav(Direction::Down), AppCommand::PageDown]);
}

#[test]
fn unmapped_keys_give_nothing() {
    let mut commands = Vec::new();
    on_key_down(Keymap::Desktop, Key::Other, false, &mut commands);
    on_key_down(Keymap::Desktop, Key::Space, false, &mut commands);
    on_key_down(Keymap::MiyooMini { menu_quits: false }, Key::F1, false, &mut commands);
    assert!(commands.is_empty());
}

#[test]
fn the_keymap_follows_the_setting_then_the_driver() {
    assert_eq!(Keymap::detect("x11", None, None), Keymap::Desktop);
    assert_eq!(Keymap::detect("mmiyoo", None, None), Keymap::MiyooMini { menu_quits: false });
    assert_eq!(Keymap::detect("mmiyoo", None, Some("1")), Keymap::MiyooMini { menu_quits: true });
    assert_eq!(Keymap::detect("mmiyoo", None, Some("0")), Keymap::MiyooMini { menu_quits: false });
    assert_eq!(Keymap::detect("x11", Some("miyoo"), None), Keymap::MiyooMini { menu_quits: false });
    assert_eq!(Keymap::detect("mmiyoo", Some("desktop"), Some("1")), Keymap::Desktop);
    assert_eq!(Keymap::detect("mmiyoo", Some("dvorak"), None), Keymap::Desktop);
    assert_eq!(Keymap::default(), Keymap::Desktop);
}

#[test]
fn select_held_turns_y_into_the_quit_chord() {
    let mut pad = Gamepad::new(timing());
    let mut commands = Vec::new();
    pad.on_button(PadButton::Back, true, 0, &mut commands);
    pad.on_button(PadButton::Y, true, 0, &mut commands);
    assert_eq!(commands, vec![AppCommand::ReAnnounce, AppCommand::Shutdown]);
}

#[test]
fn releasing_select_hands_y_back_to_pinning() {
    let mut pad = Gamepad::new(timing());
    let mut commands = Vec::new();
    pad.on_button(PadButton::Back, true, 0, &mut commands);
    pad.on_button(PadButton::Back, false, 0, &mut commands);
    pad.on_button(PadButton::Y, true, 0, &mut commands);
    assert_eq!(commands, vec![AppCommand::ReAnnounce, AppCommand::TogglePin]);
}

/// Y pressed first keeps its own action; the later Select stays a refresh.
#[test]
fn y_first_then_select_does_not_quit() {
    let mut pad = Gamepad::new(timing());
    let mut commands = Vec::new();
    pad.on_button(PadButton::Y, true, 0, &mut commands);
    pad.on_button(PadButton::Back, true, 0, &mut commands);
    assert_eq!(commands, vec![AppCommand::TogglePin, AppCommand::ReAnnounce]);
}

#[test]
fn a_held_dpad_repeats_after_the_delay_then_every_interval() {
    let mut pad = Gamepad::new(timing());
    let mut commands = Vec::new();
    pad.on_button(PadButton::DPadDown, true, 1000, &mut commands);
    assert_eq!(commands, vec![AppCommand::Nav(Direction::Down)]);
    assert_eq!(pad.next_repeat_in(1000), Some(400));

    pad.tick(1399, &mut commands);
    assert_eq!(commands.len(), 1, "not yet");
    pad.tick(1400, &mut commands);
    assert_eq!(commands.len(), 2);
    assert_eq!(pad.held, Some(Held { dir: Direction::Down, pressed_at: 1000, last_repeat: Some(1400) }));
    assert_eq!(pad.next_repeat_in(1450), Some(70));
    pad.tick(1519, &mut commands);
    assert_eq!(commands.len(), 2);
    pad.tick(1520, &mut commands);
    assert_eq!(commands.len(), 3);
    assert_eq!(pad.next_repeat_in(2000), Some(0), "overdue");

    // Releasing it stops the repeats.
    pad.on_button(PadButton::DPadDown, false, 2000, &mut commands);
    assert_eq!(pad.next_repeat_in(2000), None);
    pad.tick(5000, &mut commands);
    assert_eq!(commands.len(), 3);
}

#[test]
fn releasing_another_direction_keeps_the_hold() {
    let mut pad = Gamepad::new(timing());
    let mut commands = Vec::new();
    pad.on_button(PadButton::DPadUp, true, 0, &mut commands);
    pad.on_button(PadButton::DPadLeft, true, 10, &mut commands);
    pad.on_button(PadButton::DPadUp, false, 20, &mut commands);
    assert_eq!(pad.held.map(|h| h.dir), Some(Direction::Left), "the last one pressed wins");
}

#[test]
fn the_stick_navigates_with_hysteresis() {
    let mut pad = Gamepad::new(timing());
    let mut commands = Vec::new();
    pad.on_stick(StickZone::Engaged(Direction::Right), 0, &mut commands);
    // Wobbling in the band keeps the state, and does not navigate again.
    pad.on_stick(StickZone::Band, 5, &mut commands);
    pad.on_stick(StickZone::Engaged(Direction::Right), 6, &mut commands);
    assert_eq!(commands, vec![AppCommand::Nav(Direction::Right)]);
    assert_eq!(pad.stick_dir, Some(Direction::Right));

    // Back inside the dead zone it lets go of the hold.
    pad.on_stick(StickZone::Released, 10, &mut commands);
    assert_eq!(pad.stick_dir, None);
    assert!(pad.held.is_none());

    pad.on_stick(StickZone::Engaged(Direction::Up), 20, &mut commands);
    assert_eq!(commands, vec![AppCommand::Nav(Direction::Right), AppCommand::Nav(Direction::Up)]);
}

#[test]
fn pad_buttons_act_on_press_only() {
    let mut pad = Gamepad::new(timing());
    let mut commands = Vec::new();
    for b in [PadButton::A, PadButton::B, PadButton::X, PadButton::Start, PadButton::LeftShoulder, PadButton::RightShoulder] {
        pad.on_button(b, true, 0, &mut commands);
        pad.on_button(b, false, 1, &mut commands);
    }
    pad.on_button(PadButton::Other, true, 2, &mut commands);
    assert_eq!(
        commands,
        vec![
            AppCommand::Confirm,
            AppCommand::Back,
            AppCommand::Alt,
            AppCommand::Start,
            AppCommand::PageUp,
            AppCommand::PageDown
        ]
    );
}
