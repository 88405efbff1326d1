use ha_tui::app::action::{KeyCode, KeyEvent, KeyEventKind};
use ha_tui::app::dispatch::{KeyOutcome, MouseEvent, MouseKind};
use ha_tui::app::registry::Registry;
use ha_tui::app::state::AppState;
use ha_tui::config::{DashboardCard, DashboardTab};
use ha_tui::ha::client::Command;
use ha_tui::ha::protocol::StateObject;
use ha_tui::json::Json;
use ha_tui::ui::cards::RowHit;
use ha_tui::ui::tabs::TabHit;
use ha_tui::ui::{overlay, status_line, Area, Overlay, StatusLine};

fn state(entity_id: &str, state: &str) -> StateObject {
    StateObject {
        entity_id: entity_id.into(),
        state: state.into(),
        attributes: Json::Object(vec![]),
        last_updated: None,
        last_changed: None,
    }
}

fn press(code: KeyCode) -> KeyEvent {
    KeyEvent::press(code)
}

fn app() -> AppState {
    AppState::new(vec![state("light.a", "on"), state("switch.b", "off")], Registry::default(), vec![])
}

fn graphed_app() -> AppState {
    let mut tab = DashboardTab::new("Home", vec![]);
    tab.cards = vec![DashboardCard {
        title: Some("Climate".into()),
        entity_ids: vec!["sensor.temp".into(), "switch.fan".into()],
        graph_entity_ids: vec!["sensor.temp".into()],
    }];
    AppState::new(vec![state("sensor.temp", "20"), state("switch.fan", "off")], Registry::default(), vec![tab])
}

#[test]
fn keys_navigate_and_quit() {
    let mut a = app();
    assert!(a.can_navigate_with(1));
    assert!(matches!(a.handle_key_at(press(KeyCode::Tab), 1, 0), KeyOutcome::Redraw));
    assert_eq!(a.selected_group_name().as_deref(), Some("switch"));
    assert!(matches!(a.handle_key_at(press(KeyCode::Char('x')), 1, 0), KeyOutcome::Idle));
    assert!(matches!(a.handle_key_at(press(KeyCode::Char('q')), 1, 0), KeyOutcome::Quit));
    let release = KeyEvent { code: KeyCode::Char('q'), kind: KeyEventKind::Release };
    assert!(matches!(a.handle_key_at(release, 1, 0), KeyOutcome::Idle));
}

#[test]
fn enter_toggles_and_hands_back_the_call() {
    let mut a = app();
    match a.handle_key_at(press(KeyCode::Enter), 1, 5) {
        KeyOutcome::Send(Command::CallService { domain, service, .. }) => {
            assert_eq!(domain, "light");
            assert_eq!(service, "toggle");
        }
        _ => panic!("a light toggles"),
    }
    assert_eq!(a.status_message(), Some("toggling light.a..."));
}

#[test]
fn enter_on_a_graphed_row_opens_its_chart() {
    let mut a = graphed_app();
    assert!(matches!(a.handle_key_at(press(KeyCode::Enter), 1, 0), KeyOutcome::Redraw));
    assert_eq!(a.detail_entity(), Some("sensor.temp"));
    assert_eq!(overlay(&a), Overlay::Detail("sensor.temp".into()));
    // Any key closes the chart.
    assert!(matches!(a.handle_key_at(press(KeyCode::Char('j')), 1, 0), KeyOutcome::Redraw));
    assert_eq!(a.detail_entity(), None);
    assert_eq!(overlay(&a), Overlay::Nothing);
    // The second row is not graphed: it is toggled.
    a.handle_key_at(press(KeyCode::Down), 1, 0);
    assert!(matches!(a.handle_key_at(press(KeyCode::Enter), 1, 0), KeyOutcome::Send(_)));
}

#[test]
fn typing_a_search_and_confirming_it() {
    let mut a = app();
    a.handle_key_at(press(KeyCode::Char('/')), 1, 0);
    assert_eq!(status_line(&a), StatusLine::Query(String::new()));
    for c in "swi".chars() {
        a.handle_key_at(press(KeyCode::Char(c)), 1, 0);
    }
    assert_eq!(status_line(&a), StatusLine::Query("swi".into()));
    // While typing, q is a character, not quit.
    assert!(matches!(a.handle_key_at(press(KeyCode::Char('q')), 1, 0), KeyOutcome::Redraw));
    a.handle_key_at(press(KeyCode::Backspace), 1, 0);
    a.handle_key_at(press(KeyCode::Enter), 1, 0);
    assert!(a.is_filtering());
    assert!(!a.is_filter_editing());
    assert_eq!(a.selected_entity().unwrap().entity_id, "switch.b");
    assert_eq!(status_line(&a), StatusLine::Help);
    assert!(matches!(a.handle_key_at(press(KeyCode::Esc), 1, 0), KeyOutcome::Redraw));
    assert!(!a.is_filtering());
    assert!(matches!(a.handle_key_at(press(KeyCode::Esc), 1, 0), KeyOutcome::Idle));
}

#[test]
fn help_opens_and_any_key_closes_it() {
    let mut a = app();
    a.handle_key_at(press(KeyCode::Char('?')), 1, 0);
    assert!(a.help_shown());
    assert_eq!(overlay(&a), Overlay::Help);
    assert!(matches!(a.handle_key_at(press(KeyCode::Char('q')), 1, 0), KeyOutcome::Redraw));
    assert!(!a.help_shown());
}

#[test]
fn the_status_line_shows_messages() {
    let mut a = app();
    assert_eq!(status_line(&a), StatusLine::Help);
    a.command_failed("boom");
    assert_eq!(status_line(&a), StatusLine::Message("error: boom".into()));
}

fn click(column: u16, row: u16) -> MouseEvent {
    MouseEvent { kind: MouseKind::LeftDown, column, row }
}

#[test]
fn clicks_select_tabs_and_rows_and_double_clicks_activate() {
    let mut a = app();
    let tabs = vec![
        TabHit { area: Area { x: 2, y: 1, width: 5, height: 1 }, index: 0 },
        TabHit { area: Area { x: 12, y: 1, width: 6, height: 1 }, index: 1 },
    ];
    let rows = vec![RowHit { area: Area { x: 1, y: 4, width: 30, height: 1 }, card: 0, row: 0 }];
    let (out, last) = a.handle_mouse_at(click(13, 1), &tabs, &rows, None, 1, 0);
    assert!(matches!(out, KeyOutcome::Redraw));
    assert_eq!(last, None);
    assert_eq!(a.selected_group_name().as_deref(), Some("switch"));

    let (out, last) = a.handle_mouse_at(click(5, 4), &tabs, &rows, None, 1, 1_000);
    assert!(matches!(out, KeyOutcome::Redraw));
    assert_eq!(last, Some((1_000, 0, 0)));
    let (out, last) = a.handle_mouse_at(click(6, 4), &tabs, &rows, last, 1, 300_000_000);
    assert!(matches!(out, KeyOutcome::Send(_)));
    assert_eq!(last, None);
    assert_eq!(a.status_message(), Some("toggling switch.b..."));

    // Too slow for a double-click: just a selection.
    let (_, last) = a.handle_mouse_at(click(6, 4), &tabs, &rows, None, 1, 1_000_000_000);
    let (out, _) = a.handle_mouse_at(click(6, 4), &tabs, &rows, last, 1, 1_500_000_000);
    assert!(matches!(out, KeyOutcome::Redraw));

    // Nowhere in particular, and other mouse activity, do nothing.
    let (out, _) = a.handle_mouse_at(click(60, 30), &tabs, &rows, None, 1, 0);
    assert!(matches!(out, KeyOutcome::Idle));
    let moved = MouseEvent { kind: MouseKind::Other, column: 5, row: 4 };
    assert!(matches!(a.handle_mouse_at(moved, &tabs, &rows, None, 1, 0).0, KeyOutcome::Idle));
}

#[test]
fn scrolling_moves_the_selection() {
    let mut a = AppState::new(vec![state("light.a", "on"), state("light.b", "on")], Registry::default(), vec![]);
    let none_tabs: Vec<TabHit> = vec![];
    let none_rows: Vec<RowHit> = vec![];
    let down = MouseEvent { kind: MouseKind::ScrollDown, column: 0, row: 0 };
    let up = MouseEvent { kind: MouseKind::ScrollUp, column: 0, row: 0 };
    a.handle_mouse_at(down, &none_tabs, &none_rows, None, 1, 0);
    assert_eq!(a.selected_entity().unwrap().entity_id, "light.b");
    a.handle_mouse_at(up, &none_tabs, &none_rows, None, 1, 0);
    assert_eq!(a.selected_entity().unwrap().entity_id, "light.a");
}

#[test]
fn activation_opens_a_chart_or_toggles() {
    let mut a = graphed_app();
    assert_eq!(a.activate_selected(), (true, None));
    a.close_detail();
    a.move_down(1);
    let (did, cmd) = a.activate_selected();
    assert!(did);
    assert!(cmd.is_some());
    let mut sensor_only = AppState::new(vec![state("sensor.x", "1")], Registry::default(), vec![]);
    assert_eq!(sensor_only.activate_selected(), (false, None));
}
