use ha_tui::app::action::{is_mouse_toggle, mouse_mode_status, quits_while_connecting, Action, FilterAction, KeyCode, KeyEvent, KeyEventKind};

fn press(code: KeyCode) -> KeyEvent {
    KeyEvent::press(code)
}

#[test]
fn maps_known_keys() {
    assert_eq!(Action::from_key(press(KeyCode::Char('q'))), Some(Action::Quit));
    assert_eq!(Action::from_key(press(KeyCode::Char('j'))), Some(Action::MoveDown));
    assert_eq!(Action::from_key(press(KeyCode::Char('k'))), Some(Action::MoveUp));
    assert_eq!(Action::from_key(press(KeyCode::Down)), Some(Action::MoveDown));
    assert_eq!(Action::from_key(press(KeyCode::Up)), Some(Action::MoveUp));
    assert_eq!(Action::from_key(press(KeyCode::Tab)), Some(Action::NextGroup));
    assert_eq!(Action::from_key(press(KeyCode::BackTab)), Some(Action::PrevGroup));
    assert_eq!(Action::from_key(press(KeyCode::Enter)), Some(Action::Toggle));
    assert_eq!(Action::from_key(press(KeyCode::Char(' '))), Some(Action::Toggle));
    assert_eq!(Action::from_key(press(KeyCode::Char('+'))), Some(Action::Increase));
    assert_eq!(Action::from_key(press(KeyCode::Char('='))), Some(Action::Increase));
    assert_eq!(Action::from_key(press(KeyCode::Char('-'))), Some(Action::Decrease));
}

#[test]
fn ignores_unknown_keys_and_non_press_events() {
    assert_eq!(Action::from_key(press(KeyCode::Char('x'))), None);
    let mut release = press(KeyCode::Char('q'));
    release.kind = KeyEventKind::Release;
    assert_eq!(Action::from_key(release), None);
}

#[test]
fn panel_search_and_help_keys() {
    assert_eq!(Action::from_key(press(KeyCode::Char('h'))), Some(Action::MoveLeft));
    assert_eq!(Action::from_key(press(KeyCode::Left)), Some(Action::MoveLeft));
    assert_eq!(Action::from_key(press(KeyCode::Char('l'))), Some(Action::MoveRight));
    assert_eq!(Action::from_key(press(KeyCode::Right)), Some(Action::MoveRight));
    assert_eq!(Action::from_key(press(KeyCode::Char('/'))), Some(Action::StartFilter));
    assert_eq!(Action::from_key(press(KeyCode::Esc)), Some(Action::ClearFilter));
    assert_eq!(Action::from_key(press(KeyCode::Char('?'))), Some(Action::ShowHelp));
    assert_eq!(Action::from_key(press(KeyCode::F(2))), None);
    assert_eq!(Action::from_key(press(KeyCode::Other)), None);
}

#[test]
fn repeats_do_not_act() {
    let repeat = KeyEvent { code: KeyCode::Char('j'), kind: KeyEventKind::Repeat };
    assert_eq!(Action::from_key(repeat), None);
    assert_eq!(FilterAction::from_key(repeat), None);
}

#[test]
fn filter_keys_edit_the_query() {
    assert_eq!(FilterAction::from_key(press(KeyCode::Char('q'))), Some(FilterAction::Push('q')));
    assert_eq!(FilterAction::from_key(press(KeyCode::Char('/'))), Some(FilterAction::Push('/')));
    assert_eq!(FilterAction::from_key(press(KeyCode::Backspace)), Some(FilterAction::Backspace));
    assert_eq!(FilterAction::from_key(press(KeyCode::Enter)), Some(FilterAction::Confirm));
    assert_eq!(FilterAction::from_key(press(KeyCode::Esc)), Some(FilterAction::Cancel));
    assert_eq!(FilterAction::from_key(press(KeyCode::Up)), None);
    let release = KeyEvent { code: KeyCode::Char('a'), kind: KeyEventKind::Release };
    assert_eq!(FilterAction::from_key(release), None);
}

#[test]
fn f2_toggles_the_mouse_only_when_pressed() {
    assert!(is_mouse_toggle(press(KeyCode::F(2))));
    assert!(!is_mouse_toggle(press(KeyCode::F(3))));
    assert!(!is_mouse_toggle(KeyEvent { code: KeyCode::F(2), kind: KeyEventKind::Release }));
    assert!(!is_mouse_toggle(press(KeyCode::Char('2'))));
}

#[test]
fn only_quit_acts_while_connecting() {
    assert!(quits_while_connecting(press(KeyCode::Char('q'))));
    assert!(!quits_while_connecting(press(KeyCode::Char('j'))));
    assert!(!quits_while_connecting(press(KeyCode::Enter)));
    assert!(!quits_while_connecting(KeyEvent { code: KeyCode::Char('q'), kind: KeyEventKind::Release }));
}

#[test]
fn the_mouse_mode_status_names_the_new_mode() {
    assert_eq!(mouse_mode_status(true), "Mouse mode on (F2 to turn off for terminal text selection/copy)");
    assert_eq!(mouse_mode_status(false), "Mouse mode off - terminal text selection/copy enabled (F2 to turn back on)");
}
