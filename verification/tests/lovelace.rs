use ha_tui::config::DashboardTab;
use ha_tui::ha::lovelace::{common_word_prefix, extract_tabs, type_wants_graph};
use ha_tui::json::{Json, JsonNumber};

fn to_json(v: &serde_json::Value) -> Json {
    match v {
        serde_json::Value::Null => Json::Null,
        serde_json::Value::Bool(b) => Json::Bool(*b),
        serde_json::Value::Number(n) => Json::Number(JsonNumber { as_u64: n.as_u64(), text: n.to_string() }),
        serde_json::Value::String(s) => Json::Str(s.clone()),
        serde_json::Value::Array(items) => Json::Array(items.iter().map(to_json).collect()),
        serde_json::Value::Object(members) => Json::Object(members.iter().map(|(k, v)| (k.clone(), to_json(v))).collect()),
    }
}

fn tabs_of(config: &str) -> Vec<DashboardTab> {
    let v: serde_json::Value = serde_json::from_str(config).unwrap();
    extract_tabs(&to_json(&v))
}

#[test]
fn extracts_a_single_card_from_a_flat_entities_card() {
    let tabs = tabs_of(
        r#"{
            "views": [{
                "title": "Living Room",
                "cards": [{
                    "type": "entities",
                    "title": "Living Room",
                    "entities": ["light.a", {"entity": "switch.b"}]
                }]
            }]
        }"#,
    );
    assert_eq!(tabs.len(), 1);
    assert_eq!(tabs[0].name, "Living Room");
    assert_eq!(tabs[0].cards.len(), 1);
    assert_eq!(tabs[0].cards[0].title.as_deref(), Some("Living Room"));
    assert_eq!(tabs[0].cards[0].entity_ids, vec!["light.a", "switch.b"]);
}

#[test]
fn sensor_cards_with_a_graph_key_are_flagged_for_sparklines() {
    let tabs = tabs_of(
        r#"{
            "views": [{
                "title": "Home",
                "cards": [{
                    "type": "grid",
                    "cards": [
                        {"type": "sensor", "name": "Kitchen temp", "entity": "sensor.temp", "graph": "line"},
                        {"type": "sensor", "name": "Kitchen humidity", "entity": "sensor.humidity"}
                    ]
                }]
            }]
        }"#,
    );
    assert_eq!(tabs[0].cards[0].entity_ids, vec!["sensor.temp", "sensor.humidity"]);
    assert_eq!(tabs[0].cards[0].graph_entity_ids, vec!["sensor.temp"]);
}

#[test]
fn history_graph_and_apexcharts_cards_flag_all_their_entities() {
    let tabs = tabs_of(
        r#"{
            "views": [{
                "title": "Flood",
                "cards": [
                    {"type": "history-graph", "entities": ["binary_sensor.flood"]},
                    {"type": "custom:apexcharts-card", "series": [{"entity": "sensor.a"}, {"entity": "sensor.b"}]}
                ]
            }]
        }"#,
    );
    assert_eq!(tabs[0].cards[0].graph_entity_ids, vec!["binary_sensor.flood"]);
    assert_eq!(tabs[0].cards[1].graph_entity_ids, vec!["sensor.a", "sensor.b"]);
}

#[test]
fn a_grid_of_related_mini_cards_merges_into_one_panel() {
    let tabs = tabs_of(
        r#"{
            "views": [{
                "title": "Home",
                "cards": [{
                    "type": "grid",
                    "cards": [
                        {"type": "sensor", "name": "Kitchen temperature", "entity": "sensor.kitchen_temp"},
                        {"type": "sensor", "name": "Kitchen humidity", "entity": "sensor.kitchen_humidity"}
                    ],
                    "columns": 2
                }]
            }]
        }"#,
    );
    assert_eq!(tabs[0].cards.len(), 1);
    assert_eq!(tabs[0].cards[0].title.as_deref(), Some("Kitchen"));
    assert_eq!(tabs[0].cards[0].entity_ids, vec!["sensor.kitchen_temp", "sensor.kitchen_humidity"]);
}

#[test]
fn leaves_with_no_common_leading_word_leave_the_card_untitled() {
    let tabs = tabs_of(
        r#"{
            "views": [{
                "title": "Home",
                "cards": [{
                    "type": "grid",
                    "cards": [
                        {"type": "sensor", "name": "Kitchen temperature", "entity": "sensor.a"},
                        {"type": "sensor", "name": "Living room humidity", "entity": "sensor.b"}
                    ]
                }]
            }]
        }"#,
    );
    assert_eq!(tabs[0].cards[0].title, None);
}

#[test]
fn a_card_title_nested_under_header_is_found() {
    let tabs = tabs_of(
        r#"{
            "views": [{
                "title": "Home Detailed",
                "cards": [{
                    "type": "custom:apexcharts-card",
                    "header": { "show": true, "title": "Kitchen" },
                    "series": [{"entity": "sensor.temp"}, {"entity": "sensor.humidity"}, {"entity": "sensor.battery"}]
                }]
            }]
        }"#,
    );
    assert_eq!(tabs[0].cards[0].title.as_deref(), Some("Kitchen"));
    assert_eq!(tabs[0].cards[0].entity_ids, vec!["sensor.temp", "sensor.humidity", "sensor.battery"]);
}

#[test]
fn each_top_level_masonry_card_is_its_own_panel() {
    let tabs = tabs_of(
        r#"{
            "views": [{
                "title": "Grid View",
                "cards": [
                    {"type": "sensor", "name": "Temp", "entity": "sensor.temp"},
                    {"type": "thermostat", "entity": "climate.klima"}
                ]
            }]
        }"#,
    );
    assert_eq!(tabs[0].cards.len(), 2);
    assert_eq!(tabs[0].cards[0].title.as_deref(), Some("Temp"));
    assert_eq!(tabs[0].cards[1].entity_ids, vec!["climate.klima"]);
}

#[test]
fn each_top_level_section_is_its_own_panel_titled_from_its_heading_card() {
    let tabs = tabs_of(
        r#"{
            "views": [{
                "title": "Flood Sensors",
                "sections": [
                    {
                        "type": "grid",
                        "cards": [
                            {"type": "heading", "heading": "Kitchen", "heading_style": "title"},
                            {"type": "custom:apexcharts-card", "series": [{"entity": "sensor.temp"}, {"entity": "sensor.battery"}]},
                            {"type": "history-graph", "entities": [{"entity": "binary_sensor.flood"}]}
                        ]
                    },
                    {"type": "grid", "cards": [{"entity": "input_boolean.x", "type": "tile"}]}
                ]
            }]
        }"#,
    );
    assert_eq!(tabs[0].cards.len(), 2);
    assert_eq!(tabs[0].cards[0].title.as_deref(), Some("Kitchen"));
    assert_eq!(tabs[0].cards[0].entity_ids, vec!["sensor.temp", "sensor.battery", "binary_sensor.flood"]);
    assert_eq!(tabs[0].cards[1].title, None);
    assert_eq!(tabs[0].cards[1].entity_ids, vec!["input_boolean.x"]);
}

#[test]
fn conditional_card_wrapping_is_transparent() {
    let tabs = tabs_of(
        r#"{
            "views": [{
                "title": "Charts",
                "cards": [{
                    "type": "conditional",
                    "card": {"type": "tile", "entity": "light.c"}
                }]
            }]
        }"#,
    );
    assert_eq!(tabs[0].cards.len(), 1);
    assert_eq!(tabs[0].cards[0].entity_ids, vec!["light.c"]);
}

#[test]
fn badges_become_their_own_untitled_cards_before_the_main_cards() {
    let tabs = tabs_of(
        r#"{
            "views": [{
                "title": "Home",
                "badges": ["person.a", {"entity": "person.b"}],
                "cards": [{"type": "entities", "entities": ["person.c"]}]
            }]
        }"#,
    );
    assert_eq!(tabs[0].cards.len(), 3);
    assert_eq!(tabs[0].cards[0].entity_ids, vec!["person.a"]);
    assert_eq!(tabs[0].cards[1].entity_ids, vec!["person.b"]);
    assert_eq!(tabs[0].cards[2].entity_ids, vec!["person.c"]);
}

#[test]
fn view_name_falls_back_to_path_then_position() {
    let tabs = tabs_of(
        r#"{
            "views": [
                {"path": "no-title", "cards": [{"entity": "light.a"}]},
                {"cards": [{"entity": "light.b"}]}
            ]
        }"#,
    );
    assert_eq!(tabs[0].name, "no-title");
    assert_eq!(tabs[1].name, "View 2");
}

#[test]
fn views_with_no_extractable_cards_are_dropped() {
    let tabs = tabs_of(
        r#"{
            "views": [
                {"title": "Markdown only", "cards": [{"type": "markdown", "content": "hi"}]},
                {"title": "Has entity", "cards": [{"entity": "light.a"}]}
            ]
        }"#,
    );
    assert_eq!(tabs.len(), 1);
    assert_eq!(tabs[0].name, "Has entity");
}

#[test]
fn strategy_only_config_with_no_views_yields_no_tabs() {
    let tabs = tabs_of(r#"{ "strategy": { "type": "original-states" } }"#);
    assert!(tabs.is_empty());
}

#[test]
fn an_entity_listed_twice_in_a_card_appears_once() {
    let tabs = tabs_of(
        r#"{
            "views": [{
                "title": "Dup",
                "cards": [{"type": "entities", "entities": ["light.a", "light.a", {"entity": "light.b"}]}]
            }]
        }"#,
    );
    assert_eq!(tabs[0].cards[0].entity_ids, vec!["light.a", "light.b"]);
}

#[test]
fn graph_card_types() {
    assert!(type_wants_graph("history-graph"));
    assert!(type_wants_graph("sensor-graph"));
    assert!(type_wants_graph("custom:apexcharts-card"));
    assert!(type_wants_graph("custom:mini-graph-card"));
    assert!(!type_wants_graph("entities"));
    assert!(!type_wants_graph("sensor"));
}

#[test]
fn common_leading_words() {
    let names = |xs: &[&str]| xs.iter().map(|s| s.to_string()).collect::<Vec<String>>();
    assert_eq!(common_word_prefix(&names(&["Kitchen temperature", "Kitchen humidity"])), Some("Kitchen".into()));
    assert_eq!(common_word_prefix(&names(&["Living room temp", "Living room humidity"])), Some("Living room".into()));
    assert_eq!(common_word_prefix(&names(&["Kitchen temperature", "Living room humidity"])), None);
    assert_eq!(common_word_prefix(&names(&["Only"])), Some("Only".into()));
    assert_eq!(common_word_prefix(&names(&[])), None);
}

#[test]
fn a_repeated_member_name_reads_as_the_last_one_like_serde_json() {
    let parsed: serde_json::Value = serde_json::from_str(r#"{ "title": "One", "title": "Two" }"#).unwrap();
    assert_eq!(parsed.get("title").and_then(|v| v.as_str()), Some("Two"));
    let doc = Json::Object(vec![
        ("title".to_string(), Json::Str("One".into())),
        ("title".to_string(), Json::Str("Two".into())),
    ]);
    assert_eq!(doc.get("title").and_then(|v| v.as_str()), Some("Two"));
    assert_eq!(doc.get("missing"), None);
}

#[test]
fn a_repeated_id_keeps_its_first_graph_flag_and_ids_without_a_dot_are_skipped() {
    let tabs = tabs_of(
        r#"{
            "views": [{
                "title": "Home",
                "cards": [{
                    "type": "grid",
                    "cards": [
                        {"type": "sensor", "entity": "sensor.temp"},
                        {"type": "sensor", "entity": "not-an-entity", "graph": "line"},
                        {"type": "sensor", "entity": "sensor.temp", "graph": "line"},
                        {"type": "sensor", "entity": "sensor.hum", "graph": "line"}
                    ]
                }]
            }]
        }"#,
    );
    assert_eq!(tabs[0].cards[0].entity_ids, vec!["sensor.temp", "sensor.hum"]);
    assert_eq!(tabs[0].cards[0].graph_entity_ids, vec!["sensor.hum"]);
}
