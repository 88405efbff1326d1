use ha_tui::app::entity::StateText;
use ha_tui::app::registry::Registry;
use ha_tui::app::state::{Adjustment, AppState, TAB_TRANSITION_NS};
use ha_tui::config::{DashboardCard, DashboardTab};
use ha_tui::ha::client::Command;
use ha_tui::ha::protocol::{AreaEntry, EntityRegistryEntry, StateObject};
use ha_tui::json::{Json, JsonNumber};
use std::collections::HashMap;
use std::time::Duration;

fn to_json(v: &serde_json::Value) -> Json {
    match v {
        serde_json::Value::Null => Json::Null,
        serde_json::Value::Bool(b) => Json::Bool(*b),
        serde_json::Value::Number(n) => Json::Number(JsonNumber { as_u64: n.as_u64(), text: n.to_string() }),
        serde_json::Value::String(s) => Json::Str(s.clone()),
        serde_json::Value::Array(items) => Json::Array(items.iter().map(to_json).collect()),
        serde_json::Value::Object(members) => Json::Object(members.iter().map(|(k, v)| (k.clone(), to_json(v))).collect()),
    }
}

fn state(entity_id: &str, state: &str) -> StateObject {
    StateObject {
        entity_id: entity_id.into(),
        state: state.into(),
        attributes: Json::Object(vec![]),
        last_updated: None,
        last_changed: None,
    }
}

fn state_with_attrs(entity_id: &str, state: &str, attributes: &str) -> StateObject {
    let v: serde_json::Value = serde_json::from_str(attributes).unwrap();
    StateObject {
        entity_id: entity_id.into(),
        state: state.into(),
        attributes: to_json(&v),
        last_updated: None,
        last_changed: None,
    }
}

fn app(states: Vec<StateObject>, registry: Registry) -> AppState {
    AppState::new(states, registry, vec![])
}

fn entity_target(id: &str) -> Json {
    Json::Object(vec![("entity_id".to_string(), Json::Str(id.into()))])
}

fn text(s: &str) -> StateText {
    StateText::Text(s.into())
}

#[test]
fn groups_by_area_when_known_and_by_domain_otherwise() {
    let registry = Registry::build(
        vec![AreaEntry { area_id: "living_room".into(), name: "Living Room".into() }],
        vec![],
        vec![EntityRegistryEntry {
            entity_id: "switch.tv_socket".into(),
            device_id: None,
            area_id: Some("living_room".into()),
        }],
    );
    let a = app(vec![state("switch.tv_socket", "on"), state("sensor.unmapped", "42")], registry);

    let groups: HashMap<_, _> = a.grouped().into_iter().collect();
    assert_eq!(groups.get("Living Room").map(Vec::len), Some(1));
    assert_eq!(groups.get("sensor").map(Vec::len), Some(1));
}

#[test]
fn apply_state_updates_existing_entity_in_place() {
    let mut a = app(vec![state("switch.tv_socket", "off")], Registry::default());
    assert_eq!(a.entity("switch.tv_socket").unwrap().state, "off");

    a.apply_state(state("switch.tv_socket", "on"));
    assert_eq!(a.entity("switch.tv_socket").unwrap().state, "on");
    assert_eq!(a.entity_count(), 1);
}

#[test]
fn remove_entity_drops_it_from_the_map() {
    let mut a = app(vec![state("switch.tv_socket", "on")], Registry::default());
    a.remove_entity("switch.tv_socket");
    assert_eq!(a.entity_count(), 0);
}

#[test]
fn navigation_moves_within_and_across_groups() {
    let mut a = app(
        vec![state("light.a", "on"), state("light.b", "off"), state("switch.c", "on")],
        Registry::default(),
    );
    // groups (sorted): "light" (a, b), "switch" (c)
    assert_eq!(a.selected_group_name().as_deref(), Some("light"));
    assert_eq!(a.selected_entity().unwrap().entity_id, "light.a");

    a.move_down(1);
    assert_eq!(a.selected_entity().unwrap().entity_id, "light.b");

    a.move_down(1); // already at last entity in group, stays put
    assert_eq!(a.selected_entity().unwrap().entity_id, "light.b");

    a.next_group();
    assert_eq!(a.selected_group_name().as_deref(), Some("switch"));
    assert_eq!(a.selected_entity().unwrap().entity_id, "switch.c");

    a.prev_group();
    assert_eq!(a.selected_group_name().as_deref(), Some("light"));
    // selection resets to the top of the group on group change
    assert_eq!(a.selected_entity().unwrap().entity_id, "light.a");
}

#[test]
fn select_group_jumps_directly_to_a_tab_by_index() {
    let mut a = app(vec![state("light.a", "on"), state("switch.b", "on")], Registry::default());
    assert_eq!(a.selected_group_name().as_deref(), Some("light"));

    a.select_group(1);
    assert_eq!(a.selected_group_name().as_deref(), Some("switch"));
    // selection resets to the top of the newly-selected tab
    assert_eq!(a.selected_entity().unwrap().entity_id, "switch.b");
}

#[test]
fn select_group_ignores_out_of_range_index() {
    let mut a = app(vec![state("light.a", "on"), state("switch.b", "on")], Registry::default());
    a.select_group(99);
    assert_eq!(a.selected_group_name().as_deref(), Some("light"));
}

fn grid_of_four_single_entity_cards() -> AppState {
    let mut tab = DashboardTab::new("Grid", vec![]);
    tab.cards = ["a", "b", "c", "d"]
        .iter()
        .map(|n| DashboardCard {
            title: Some((*n).to_string()),
            entity_ids: vec![format!("light.{n}")],
            ..Default::default()
        })
        .collect();
    AppState::new(
        vec![state("light.a", "on"), state("light.b", "on"), state("light.c", "on"), state("light.d", "on")],
        Registry::default(),
        vec![tab],
    )
}

#[test]
fn select_jumps_directly_to_a_card_and_row_and_clamps_out_of_range_rows() {
    let mut a = grid_of_four_single_entity_cards();
    a.select(2, 0);
    assert_eq!(a.selected_entity().unwrap().entity_id, "light.c");

    // Card 2 only has one entity (index 0) - row 5 clamps down to it.
    a.select(2, 5);
    assert_eq!(a.selected_entity().unwrap().entity_id, "light.c");
}

#[test]
fn select_is_a_noop_for_an_out_of_range_card() {
    let mut a = grid_of_four_single_entity_cards();
    a.select(2, 0);
    a.select(99, 0);
    // Out-of-range card index is ignored - selection stays put.
    assert_eq!(a.selected_entity().unwrap().entity_id, "light.c");
}

#[test]
fn select_targets_the_flat_filtered_list_while_filtering() {
    let mut a = app(vec![state("light.a_lamp", "on"), state("light.b_lamp", "on")], Registry::default());
    a.start_filter();
    for c in "lamp".chars() {
        a.filter_push_char(c);
    }
    a.select(0, 1);
    assert_eq!(a.selected_entity().unwrap().entity_id, "light.b_lamp");
}

#[test]
fn selection_clamps_when_selected_entity_disappears() {
    let mut a = app(vec![state("light.a", "on"), state("light.b", "off")], Registry::default());
    a.move_down(1);
    assert_eq!(a.selected_row, 1);

    a.remove_entity("light.b");
    assert_eq!(a.selected_row, 0);
    assert_eq!(a.selected_entity().unwrap().entity_id, "light.a");
}

#[test]
fn selection_clamps_when_all_entities_disappear() {
    let mut a = app(vec![state("light.a", "on")], Registry::default());
    a.remove_entity("light.a");
    assert_eq!(a.selected_group, 0);
    assert_eq!(a.selected_row, 0);
    assert!(a.selected_entity().is_none());
}

#[test]
fn toggle_selected_light_sends_toggle_and_shows_optimistic_state() {
    let mut a = app(vec![state("light.a", "on")], Registry::default());

    let cmd = a.toggle_selected().expect("light should be toggleable");
    match cmd {
        Command::CallService { domain, service, target, .. } => {
            assert_eq!(domain, "light");
            assert_eq!(service, "toggle");
            assert_eq!(target, Some(entity_target("light.a")));
        }
    }

    // Real state hasn't changed yet, but the display reflects the guess.
    let entity = a.entity("light.a").unwrap();
    assert_eq!(a.display_state(entity), text("off"));
    assert_eq!(a.entity("light.a").unwrap().state, "on");
}

#[test]
fn toggle_selected_is_noop_for_unsupported_domain() {
    let mut a = app(vec![state("sensor.temp", "20")], Registry::default());
    assert!(a.toggle_selected().is_none());
}

#[test]
fn adjust_selected_light_steps_brightness_and_clamps() {
    let mut a = app(vec![state_with_attrs("light.a", "on", r#"{ "brightness": 240 }"#)], Registry::default());

    let cmd = a.adjust_selected(1).expect("light brightness should be adjustable");
    match cmd {
        Adjustment::Light(Command::CallService { domain, service, service_data, .. }) => {
            assert_eq!(domain, "light");
            assert_eq!(service, "turn_on");
            // 240 + 25 clamps to 255
            assert_eq!(
                service_data,
                Some(Json::Object(vec![(
                    "brightness".to_string(),
                    Json::Number(JsonNumber { as_u64: Some(255), text: "255".into() })
                )]))
            );
        }
        Adjustment::Climate { .. } => panic!("a light is not a climate entity"),
    }
    let entity = a.entity("light.a").unwrap();
    assert_eq!(a.display_state(entity), text("on (brightness 255/255)"));
}

#[test]
fn adjust_selected_climate_hands_back_the_current_target() {
    let mut a = app(vec![state_with_attrs("climate.a", "heat", r#"{ "temperature": 21.0 }"#)], Registry::default());
    match a.adjust_selected(-1) {
        Some(Adjustment::Climate { entity_id, target }) => {
            assert_eq!(entity_id, "climate.a");
            assert_eq!(target.as_deref(), Some("21.0"));
        }
        _ => panic!("climate target temp should be adjustable"),
    }
}

#[test]
fn adjust_selected_climate_steps_target_temperature() {
    let mut a = app(vec![state_with_attrs("climate.a", "heat", r#"{ "temperature": 21.0 }"#)], Registry::default());
    let (entity_id, target) = match a.adjust_selected(-1) {
        Some(Adjustment::Climate { entity_id, target }) => (entity_id, target),
        _ => panic!("climate target temp should be adjustable"),
    };
    let new_target = target.as_deref().and_then(|t| t.parse::<f64>().ok()).unwrap_or(20.0) - 0.5;
    let number = serde_json::Number::from_f64(new_target).unwrap();
    let temperature = Json::Number(JsonNumber { as_u64: number.as_u64(), text: number.to_string() });
    let cmd = a.set_climate_target(&entity_id, &format!("{new_target:.1}"), temperature);
    match cmd {
        Command::CallService { domain, service, service_data, target } => {
            assert_eq!(domain, "climate");
            assert_eq!(service, "set_temperature");
            assert_eq!(
                service_data,
                Some(Json::Object(vec![(
                    "temperature".to_string(),
                    Json::Number(JsonNumber { as_u64: None, text: "20.5".into() })
                )]))
            );
            assert_eq!(target, Some(entity_target("climate.a")));
        }
    }
    assert_eq!(a.status_message(), Some("setting climate.a target temp to 20.5..."));
    assert!(a.has_pending("climate.a"));
}

#[test]
fn adjust_selected_light_steps_down_and_floors_at_zero() {
    let mut a = app(vec![state_with_attrs("light.a", "on", r#"{ "brightness": 10 }"#)], Registry::default());
    assert!(a.adjust_selected(-1).is_some());
    let entity = a.entity("light.a").unwrap();
    assert_eq!(a.display_state(entity), text("on (brightness 0/255)"));
    assert_eq!(a.status_message(), Some("setting light.a brightness to 0..."));
    let mut sensor = app(vec![state("sensor.t", "1")], Registry::default());
    assert!(sensor.adjust_selected(1).is_none());
}

#[test]
fn real_update_clears_pending_optimistic_state() {
    let mut a = app(vec![state("switch.a", "off")], Registry::default());
    a.toggle_selected();
    let entity = a.entity("switch.a").unwrap();
    assert_eq!(a.display_state(entity), text("on")); // optimistic

    // HA confirms - even though it happens to match the guess here,
    // reconciliation clears the pending entry unconditionally.
    a.apply_state(state("switch.a", "on"));
    let entity = a.entity("switch.a").unwrap();
    assert_eq!(a.display_state(entity), text("on"));
    assert!(!a.has_pending("switch.a"));
}

#[test]
fn command_failed_sets_a_status_message() {
    let mut a = app(vec![state("switch.a", "on")], Registry::default());
    assert!(a.status_message().is_none());
    a.command_failed("entity not found");
    assert_eq!(a.status_message(), Some("error: entity not found"));
}

#[test]
fn dashboard_tabs_override_auto_grouping_and_keep_configured_order() {
    let a = AppState::new(
        vec![state("light.a", "on"), state("switch.b", "off"), state("sensor.c", "1")],
        Registry::default(),
        vec![
            DashboardTab::new("Second", vec!["switch.b".into()]),
            DashboardTab::new("First", vec!["light.a".into(), "sensor.c".into()]),
        ],
    );

    let groups = a.grouped();
    assert_eq!(groups.len(), 2);
    assert_eq!(groups[0].0, "Second");
    assert_eq!(groups[0].1.iter().map(|e| &e.entity_id).collect::<Vec<_>>(), vec!["switch.b"]);
    assert_eq!(groups[1].0, "First");
    assert_eq!(groups[1].1.iter().map(|e| &e.entity_id).collect::<Vec<_>>(), vec!["light.a", "sensor.c"]);
}

#[test]
fn dashboard_tab_skips_entity_ids_ha_does_not_currently_know_about() {
    let a = AppState::new(
        vec![state("light.a", "on")],
        Registry::default(),
        vec![DashboardTab::new("Tab", vec!["light.a".into(), "light.missing".into()])],
    );
    let groups = a.grouped();
    assert_eq!(groups[0].1.len(), 1);
    assert_eq!(groups[0].1[0].entity_id, "light.a");
}

#[test]
fn filter_narrows_across_all_groups_by_friendly_name() {
    let mut a = app(
        vec![
            state("light.kitchen_lamp", "on"),
            state("switch.kitchen_socket", "off"),
            state("sensor.bedroom_temp", "20"),
        ],
        Registry::default(),
    );
    a.start_filter();
    assert!(a.is_filter_editing());
    for c in "kitchen".chars() {
        a.filter_push_char(c);
    }
    let mut ids: Vec<_> = a.visible_entities().into_iter().map(|e| e.entity_id.clone()).collect();
    ids.sort();
    assert_eq!(ids, vec!["light.kitchen_lamp", "switch.kitchen_socket"]);

    a.confirm_filter();
    assert!(!a.is_filter_editing());
    assert!(a.is_filtering());
}

#[test]
fn filter_backspace_and_cancel() {
    let mut a = app(vec![state("light.kitchen_lamp", "on")], Registry::default());
    a.start_filter();
    a.filter_push_char('x');
    a.filter_push_char('y');
    a.filter_backspace();
    assert_eq!(a.filter_query(), Some("x"));

    a.cancel_filter();
    assert!(!a.is_filtering());
    assert_eq!(a.filter_query(), None);
}

#[test]
fn filter_selection_clamps_as_query_narrows() {
    let mut a = app(vec![state("light.a_lamp", "on"), state("light.b_lamp", "on")], Registry::default());
    a.start_filter();
    for c in "lamp".chars() {
        a.filter_push_char(c);
    }
    a.move_down(1);
    assert_eq!(a.selected_entity().unwrap().entity_id, "light.b_lamp");

    a.filter_push_char('x'); // no entity matches "lampx"
    assert!(a.selected_entity().is_none());
}

#[test]
fn auto_grouping_splits_a_room_into_one_card_per_domain() {
    let registry = Registry::build(
        vec![AreaEntry { area_id: "living_room".into(), name: "Living Room".into() }],
        vec![],
        vec![
            EntityRegistryEntry { entity_id: "light.a".into(), device_id: None, area_id: Some("living_room".into()) },
            EntityRegistryEntry { entity_id: "switch.b".into(), device_id: None, area_id: Some("living_room".into()) },
        ],
    );
    let a = app(vec![state("light.a", "on"), state("switch.b", "off")], registry);

    let tabs = a.tabs();
    let (name, cards) = tabs.iter().find(|(n, _)| n == "Living Room").unwrap();
    assert_eq!(name, "Living Room");
    assert_eq!(cards.len(), 2);
    assert_eq!(cards[0].title.as_deref(), Some("Light"));
    assert_eq!(cards[0].entities[0].entity_id, "light.a");
    assert_eq!(cards[1].title.as_deref(), Some("Switch"));
    assert_eq!(cards[1].entities[0].entity_id, "switch.b");
}

#[test]
fn move_right_and_left_switch_between_panels_in_the_same_grid_row() {
    // 2x2 grid: [a b] / [c d]
    let mut a = grid_of_four_single_entity_cards();
    assert_eq!(a.selected_entity().unwrap().entity_id, "light.a");

    a.move_right(2);
    assert_eq!(a.selected_entity().unwrap().entity_id, "light.b");

    // already rightmost in its grid row - no-op
    a.move_right(2);
    assert_eq!(a.selected_entity().unwrap().entity_id, "light.b");

    a.move_left(2);
    assert_eq!(a.selected_entity().unwrap().entity_id, "light.a");

    // already leftmost - no-op
    a.move_left(2);
    assert_eq!(a.selected_entity().unwrap().entity_id, "light.a");
}

#[test]
fn move_down_and_up_cross_grid_rows_via_the_same_column() {
    // 2x2 grid: [a b] / [c d]
    let mut a = grid_of_four_single_entity_cards();
    a.move_right(2); // -> b (row 0, col 1)
    a.move_down(2); // -> d (row 1, col 1)
    assert_eq!(a.selected_entity().unwrap().entity_id, "light.d");

    a.move_up(2); // back up to b
    assert_eq!(a.selected_entity().unwrap().entity_id, "light.b");

    // top row - no panel above, no-op
    a.move_up(2);
    assert_eq!(a.selected_entity().unwrap().entity_id, "light.b");
}

#[test]
fn left_right_are_noops_with_a_single_column() {
    let mut a = grid_of_four_single_entity_cards();
    a.move_right(1);
    assert_eq!(a.selected_entity().unwrap().entity_id, "light.a");
    a.move_left(1);
    assert_eq!(a.selected_entity().unwrap().entity_id, "light.a");
}

#[test]
fn dashboard_cards_carry_titles_through_to_visible_cards() {
    let mut tab = DashboardTab::new("Living Room", vec![]);
    tab.cards = vec![
        DashboardCard { title: Some("Lights".into()), entity_ids: vec!["light.a".into()], ..Default::default() },
        DashboardCard { title: None, entity_ids: vec!["light.b".into(), "sensor.c".into()], ..Default::default() },
    ];
    let a = AppState::new(
        vec![state("light.a", "on"), state("light.b", "on"), state("sensor.c", "1")],
        Registry::default(),
        vec![tab],
    );

    let cards = a.visible_cards();
    assert_eq!(cards.len(), 2);
    assert_eq!(cards[0].title.as_deref(), Some("Lights"));
    assert_eq!(cards[0].entities[0].entity_id, "light.a");
    // Untitled card with more than one entity stays untitled.
    assert_eq!(cards[1].title, None);
}

#[test]
fn untitled_single_entity_card_falls_back_to_the_entitys_own_name() {
    let mut tab = DashboardTab::new("Weather", vec![]);
    tab.cards = vec![DashboardCard { title: None, entity_ids: vec!["weather.home".into()], ..Default::default() }];
    let a = AppState::new(
        vec![state_with_attrs("weather.home", "sunny", r#"{ "friendly_name": "Forecast Home" }"#)],
        Registry::default(),
        vec![tab],
    );

    let cards = a.visible_cards();
    assert_eq!(cards[0].title.as_deref(), Some("Forecast Home"));
}

#[test]
fn filtering_collapses_to_a_single_untitled_card() {
    let mut a = app(vec![state("light.kitchen_lamp", "on"), state("light.other", "on")], Registry::default());
    a.start_filter();
    for c in "kitchen".chars() {
        a.filter_push_char(c);
    }
    let cards = a.visible_cards();
    assert_eq!(cards.len(), 1);
    assert_eq!(cards[0].title, None);
    assert_eq!(cards[0].entities.len(), 1);
    assert_eq!(cards[0].entities[0].entity_id, "light.kitchen_lamp");
}

#[test]
fn help_toggles() {
    let mut a = app(vec![], Registry::default());
    assert!(!a.show_help);
    a.toggle_help();
    assert!(a.show_help);
    a.close_help();
    assert!(!a.show_help);
}

#[test]
fn open_detail_opens_only_for_a_graphed_selection() {
    let mut tab = DashboardTab::new("Home", vec![]);
    tab.cards = vec![DashboardCard {
        title: None,
        entity_ids: vec!["sensor.temp".into()],
        graph_entity_ids: vec!["sensor.temp".into()],
    }];
    let mut a = AppState::new(vec![state("sensor.temp", "20")], Registry::default(), vec![tab]);

    assert_eq!(a.detail_entity(), None);
    a.open_detail();
    assert_eq!(a.detail_entity(), Some("sensor.temp"));
    a.close_detail();
    assert_eq!(a.detail_entity(), None);
}

#[test]
fn open_detail_is_a_noop_for_a_non_graphed_selection() {
    let mut a = app(vec![state("light.a", "on")], Registry::default());
    a.open_detail();
    assert_eq!(a.detail_entity(), None);
}

/// The expand-in animation's progress as the renderer computes it from the
/// elapsed time: 1.0 when no switch ever happened.
fn progress(a: &AppState) -> f32 {
    match a.tab_transition_elapsed() {
        Some(ns) => (ns as f32 / TAB_TRANSITION_NS as f32).min(1.0),
        None => 1.0,
    }
}

#[test]
fn tab_switch_starts_at_zero_progress_and_animation_delay() {
    let mut a = app(vec![state("light.a", "on"), state("switch.b", "on")], Registry::default());
    // No transition has happened yet - fully "expanded".
    assert_eq!(progress(&a), 1.0);
    assert_eq!(a.next_animation_delay(), None);

    a.next_group();
    assert!(progress(&a) < 0.1);
    assert_eq!(a.next_animation_delay(), Some(Duration::from_millis(16)));
}

#[test]
fn no_tabs_to_switch_between_does_not_start_an_animation() {
    let mut a = app(vec![state("light.a", "on")], Registry::default());
    a.next_group(); // only one group - no-op
    assert_eq!(progress(&a), 1.0);
    assert_eq!(a.next_animation_delay(), None);
}

fn app_with_graphed_sensor() -> AppState {
    let mut tab = DashboardTab::new("Home", vec![]);
    tab.cards = vec![DashboardCard {
        title: None,
        entity_ids: vec!["sensor.temp".into()],
        graph_entity_ids: vec!["sensor.temp".into()],
    }];
    AppState::new(vec![state("sensor.temp", "20")], Registry::default(), vec![tab])
}

#[test]
fn is_graphed_reflects_the_dashboard_cards_graph_entity_ids() {
    let a = app_with_graphed_sensor();
    assert!(a.is_graphed("sensor.temp"));
    assert!(!a.is_graphed("sensor.other"));
}

#[test]
fn open_detail_snapshots_every_graphed_entity_from_the_same_card_in_order() {
    let mut tab = DashboardTab::new("Home", vec![]);
    tab.cards = vec![DashboardCard {
        title: Some("Kitchen".into()),
        entity_ids: vec!["sensor.temp".into(), "sensor.humidity".into(), "sensor.battery".into(), "sensor.not_graphed".into()],
        graph_entity_ids: vec!["sensor.temp".into(), "sensor.humidity".into(), "sensor.battery".into()],
    }];
    let states = vec![
        state("sensor.temp", "22"),
        state("sensor.humidity", "41"),
        state("sensor.battery", "92"),
        state("sensor.not_graphed", "1"),
    ];
    let mut a = AppState::new(states, Registry::default(), vec![tab]);

    a.open_detail();
    let group: Vec<&str> = a.detail_group().iter().map(|e| e.entity_id.as_str()).collect();
    assert_eq!(group, vec!["sensor.temp", "sensor.humidity", "sensor.battery"]);
    assert_eq!(a.detail_card_title(), Some("Kitchen"));

    a.close_detail();
    assert!(a.detail_group().is_empty());
    assert_eq!(a.detail_card_title(), None);
}

#[test]
fn open_detail_groups_with_the_card_actually_on_screen_not_a_same_entity_elsewhere() {
    let mut glance = DashboardTab::new("Glance", vec![]);
    glance.cards = vec![DashboardCard {
        title: Some("Quick".into()),
        entity_ids: vec!["sensor.temp".into(), "sensor.humidity".into()],
        graph_entity_ids: vec!["sensor.temp".into(), "sensor.humidity".into()],
    }];
    let mut full = DashboardTab::new("Home Detailed", vec![]);
    full.cards = vec![DashboardCard {
        title: Some("Kitchen".into()),
        entity_ids: vec!["sensor.temp".into(), "sensor.humidity".into(), "sensor.battery".into()],
        graph_entity_ids: vec!["sensor.temp".into(), "sensor.humidity".into(), "sensor.battery".into()],
    }];
    let states = vec![state("sensor.temp", "22"), state("sensor.humidity", "41"), state("sensor.battery", "92")];
    let mut a = AppState::new(states, Registry::default(), vec![glance, full]);

    // The "Home Detailed" tab (index 1) is the one actually on screen.
    a.select_group(1);
    a.open_detail();

    let mates: Vec<&str> = a.detail_group().iter().map(|e| e.entity_id.as_str()).collect();
    assert!(mates.contains(&"sensor.battery"), "expected battery from the on-screen card, got {mates:?}");
}

#[test]
fn open_detail_group_order_is_the_same_regardless_of_which_row_activated_it() {
    let mut tab = DashboardTab::new("Home", vec![]);
    tab.cards = vec![DashboardCard {
        title: Some("Kitchen".into()),
        entity_ids: vec!["sensor.temp".into(), "sensor.humidity".into(), "sensor.battery".into()],
        graph_entity_ids: vec!["sensor.temp".into(), "sensor.humidity".into(), "sensor.battery".into()],
    }];
    let states = vec![state("sensor.temp", "22"), state("sensor.humidity", "41"), state("sensor.battery", "92")];
    let mut a = AppState::new(states, Registry::default(), vec![tab]);

    let expected = vec!["sensor.temp", "sensor.humidity", "sensor.battery"];
    for row in 0..3 {
        a.selected_row = row;
        a.open_detail();
        let group: Vec<&str> = a.detail_group().iter().map(|e| e.entity_id.as_str()).collect();
        assert_eq!(group, expected, "row {row} activated a differently-ordered group");
        a.close_detail();
    }
}

#[test]
fn state_change_flashes_the_entity_briefly() {
    let mut a = app(vec![state("switch.a", "off")], Registry::default());
    assert!(!a.is_recently_changed("switch.a"));

    a.apply_state(state("switch.a", "on"));
    assert!(a.is_recently_changed("switch.a"));

    // Applying the same state again isn't a change, so no new flash.
    a.apply_state(state("switch.a", "on"));
    assert!(a.is_recently_changed("switch.a"));
}

#[test]
fn an_update_reads_back_and_leaves_other_entities_alone() {
    let mut a = app(vec![state("light.a", "on"), state("light.b", "off")], Registry::default());
    a.set_pending_at("light.b", "on".into(), 0);
    a.apply_state_at(state("light.a", "off"), 10);
    assert_eq!(a.entity("light.a").unwrap().state, "off");
    assert_eq!(a.entity("light.b").unwrap().state, "off");
    assert!(a.has_pending("light.b"));
    a.apply_state_at(state("light.new", "on"), 20);
    assert_eq!(a.entity_count(), 3);
    assert_eq!(a.entity("light.new").unwrap().domain, "light");
}

#[test]
fn a_snapshot_keeps_the_last_report_of_each_entity_in_first_seen_order() {
    let a = app(
        vec![state("light.b", "off"), state("light.a", "on"), state("light.b", "on")],
        Registry::default(),
    );
    assert_eq!(a.entity_count(), 2);
    assert_eq!(a.entity("light.b").unwrap().state, "on");
    let ids: Vec<&str> = a.visible_entities().iter().map(|e| e.entity_id.as_str()).collect();
    assert_eq!(ids, vec!["light.a", "light.b"]);
}

#[test]
fn expiry_drops_only_what_outlived_its_timeout() {
    let mut a = app(vec![state("switch.a", "off"), state("switch.b", "off")], Registry::default());
    a.set_pending_at("switch.a", "on".into(), 0);
    a.set_pending_at("switch.b", "on".into(), 4_000_000_000);
    a.set_status_at("hello".into(), 1_000_000_000);
    a.apply_state_at(state("switch.b", "on"), 4_500_000_000);
    assert!(!a.expire_stale_at(100_000_000));
    assert!(a.expire_stale_at(5_000_000_000));
    assert!(!a.has_pending("switch.a"));
    assert_eq!(a.status_message(), Some("hello"));
    assert!(a.is_recently_changed("switch.b"));
    assert!(a.expire_stale_at(6_000_000_000));
    assert_eq!(a.status_message(), None);
    assert!(!a.is_recently_changed("switch.b"));
    assert!(!a.expire_stale_at(6_000_000_000));
}

#[test]
fn next_then_prev_tab_returns_to_the_start() {
    let mut a = app(vec![state("light.a", "on"), state("sensor.b", "1"), state("switch.c", "on")], Registry::default());
    assert_eq!(a.group_names(), vec!["light", "sensor", "switch"]);
    a.prev_group();
    assert_eq!(a.selected_group, 2);
    a.next_group();
    assert_eq!(a.selected_group, 0);
    a.next_group();
    a.prev_group();
    assert_eq!(a.selected_group, 0);
    assert_eq!(a.tabs_label(), "Rooms");
}

#[test]
fn auto_grouping_titleizes_domains_and_sorts_rows_by_name() {
    let a = app(
        vec![
            state_with_attrs("binary_sensor.z", "on", r#"{ "friendly_name": "Alpha" }"#),
            state_with_attrs("binary_sensor.a", "on", r#"{ "friendly_name": "Beta" }"#),
        ],
        Registry::default(),
    );
    let tabs = a.tabs();
    assert_eq!(tabs.len(), 1);
    assert_eq!(tabs[0].0, "binary_sensor");
    assert_eq!(tabs[0].1[0].title.as_deref(), Some("Binary Sensor"));
    let ids: Vec<&str> = tabs[0].1[0].entities.iter().map(|e| e.entity_id.as_str()).collect();
    assert_eq!(ids, vec!["binary_sensor.z", "binary_sensor.a"]);
}

#[test]
fn auto_grouping_shows_each_entity_exactly_once() {
    let registry = Registry::build(
        vec![AreaEntry { area_id: "kitchen".into(), name: "Kitchen".into() }],
        vec![],
        vec![EntityRegistryEntry { entity_id: "light.k".into(), device_id: None, area_id: Some("kitchen".into()) }],
    );
    let a = app(
        vec![
            state("light.k", "on"),
            state("light.hall", "off"),
            state("sensor.t", "21"),
            state("switch.fan", "on"),
            state("sensor.h", "40"),
        ],
        registry,
    );
    let tabs = a.tabs();
    let mut ids: Vec<String> = tabs
        .iter()
        .flat_map(|(_, cards)| cards.iter().flat_map(|c| c.entities.iter().map(|e| e.entity_id.clone())))
        .collect();
    assert_eq!(ids.len(), 5);
    ids.sort();
    assert_eq!(ids, vec!["light.hall", "light.k", "sensor.h", "sensor.t", "switch.fan"]);
}

#[test]
fn removing_the_selected_last_row_pulls_the_selection_back_to_the_new_last_row() {
    let mut a = app(vec![state("light.a", "on"), state("light.b", "on"), state("light.c", "on")], Registry::default());
    a.move_down(1);
    a.move_down(1);
    assert_eq!(a.selected_entity().unwrap().entity_id, "light.c");
    a.remove_entity("light.c");
    assert_eq!(a.selection(), (0, 0, 1));
    assert_eq!(a.selected_entity().unwrap().entity_id, "light.b");
}
