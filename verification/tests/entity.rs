use ha_tui::app::entity::{domain_of, Entity, StateText};
use ha_tui::ha::protocol::StateObject;
use ha_tui::json::{Json, JsonNumber};

fn to_json(v: &serde_json::Value) -> Json {
    match v {
        serde_json::Value::Null => Json::Null,
        serde_json::Value::Bool(b) => Json::Bool(*b),
        serde_json::Value::Number(n) => Json::Number(JsonNumber { as_u64: n.as_u64(), text: n.to_string() }),
        serde_json::Value::String(s) => Json::Str(s.clone()),
        serde_json::Value::Array(items) => Json::Array(items.iter().map(to_json).collect()),
        serde_json::Value::Object(members) => Json::Object(members.iter().map(|(k, v)| (k.clone(), to_json(v))).collect()),
    }
}

fn state_from_json(json: &str) -> StateObject {
    let v: serde_json::Value = serde_json::from_str(json).expect("sample payload should deserialize");
    let text = |key: &str| v.get(key).and_then(|x| x.as_str()).map(str::to_string);
    StateObject {
        entity_id: text("entity_id").unwrap(),
        state: text("state").unwrap(),
        attributes: to_json(v.get("attributes").unwrap_or(&serde_json::Value::Null)),
        last_updated: text("last_updated"),
        last_changed: text("last_changed"),
    }
}

#[test]
fn light_view_reads_onoff_state() {
    let state = state_from_json(
        r#"{
            "entity_id": "light.lumi_v3_c9e7_light",
            "state": "off",
            "attributes": {
                "color_mode": null,
                "friendly_name": "Mi Control Hub Light",
                "supported_color_modes": ["onoff"],
                "supported_features": 0
            },
            "last_updated": "2026-09-06T04:29:40.175467+00:00",
            "last_changed": "2026-09-06T04:29:40.175467+00:00"
        }"#,
    );
    let entity = Entity::from_state(state);
    assert_eq!(entity.domain, "light");
    assert_eq!(entity.friendly_name(), "Mi Control Hub Light");
    let light = entity.as_light().expect("should be a light view");
    assert!(!light.is_on());
    assert_eq!(light.brightness(), None);
    assert!(entity.as_switch().is_none());
}

#[test]
fn switch_view_reads_onoff_state() {
    let state = state_from_json(
        r#"{
            "entity_id": "switch.tv_socket",
            "state": "on",
            "attributes": { "friendly_name": "TV Socket" },
            "last_updated": "2026-09-03T20:57:24.887959+00:00",
            "last_changed": "2026-09-03T20:57:24.887959+00:00"
        }"#,
    );
    let entity = Entity::from_state(state);
    let switch = entity.as_switch().expect("should be a switch view");
    assert!(switch.is_on());
}

#[test]
fn climate_view_reads_temperatures_and_mode() {
    let state = state_from_json(
        r#"{
            "entity_id": "climate.klima",
            "state": "off",
            "attributes": {
                "current_temperature": 29,
                "friendly_name": "Klima",
                "hvac_modes": ["off", "cool", "dry", "fan_only", "auto", "heat"],
                "max_temp": 35,
                "min_temp": 7,
                "temperature": 23
            },
            "last_updated": "2026-09-06T06:49:42.966360+00:00",
            "last_changed": "2026-09-06T06:49:42.966360+00:00"
        }"#,
    );
    let entity = Entity::from_state(state);
    let climate = entity.as_climate().expect("should be a climate view");
    assert_eq!(climate.hvac_mode(), "off");
    // The temperatures are handed out as the number's text; the float is read from it.
    assert_eq!(climate.current_temperature_text().map(|t| t.parse::<f64>().unwrap()), Some(29.0));
    assert_eq!(climate.target_temperature_text().map(|t| t.parse::<f64>().unwrap()), Some(23.0));
}

#[test]
fn sensor_view_reads_value_and_unit() {
    let state = state_from_json(
        r#"{
            "entity_id": "sensor.sm_a546b_battery_level",
            "state": "91",
            "attributes": {
                "device_class": "battery",
                "friendly_name": "SM-A546B Battery level",
                "icon": "mdi:battery-90",
                "state_class": "measurement",
                "unit_of_measurement": "%"
            },
            "last_updated": "2026-09-06T12:10:21.306473+00:00",
            "last_changed": "2026-09-06T12:10:21.306473+00:00"
        }"#,
    );
    let entity = Entity::from_state(state);
    let sensor = entity.as_sensor().expect("should be a sensor view");
    assert_eq!(sensor.value(), "91");
    assert_eq!(sensor.unit(), Some("%"));
}

#[test]
fn sensor_without_unit_falls_back_gracefully() {
    let state = state_from_json(
        r#"{
            "entity_id": "sensor.internet_latency_clean",
            "state": "52.253",
            "attributes": { "friendly_name": "Internet Latency Clean", "unit_of_measurement": "ms" },
            "last_updated": "2026-09-06T12:37:48.282799+00:00",
            "last_changed": "2026-09-06T12:37:48.282799+00:00"
        }"#,
    );
    let entity = Entity::from_state(state);
    assert_eq!(entity.as_sensor().unwrap().unit(), Some("ms"));
}

#[test]
fn unknown_domain_falls_back_to_entity_id_and_raw_state() {
    let state = state_from_json(
        r#"{
            "entity_id": "person.peter_guspan",
            "state": "home",
            "attributes": {},
            "last_updated": null,
            "last_changed": null
        }"#,
    );
    let entity = Entity::from_state(state);
    assert_eq!(entity.domain, "person");
    assert_eq!(entity.friendly_name(), "person.peter_guspan");
    assert!(entity.as_light().is_none());
    assert!(entity.as_switch().is_none());
    assert!(entity.as_climate().is_none());
    assert!(entity.as_sensor().is_none());
}

#[test]
fn unavailable_and_unknown_states_are_flagged() {
    let unavailable = Entity::from_state(state_from_json(
        r#"{"entity_id": "media_player.tv_1", "state": "unavailable", "attributes": {}, "last_updated": null, "last_changed": null}"#,
    ));
    let unknown = Entity::from_state(state_from_json(
        r#"{"entity_id": "sensor.shmu_temperature", "state": "unknown", "attributes": {}, "last_updated": null, "last_changed": null}"#,
    ));
    let normal = Entity::from_state(state_from_json(
        r#"{"entity_id": "switch.tv_socket", "state": "on", "attributes": {}, "last_updated": null, "last_changed": null}"#,
    ));
    assert!(unavailable.is_unavailable());
    assert!(unknown.is_unavailable());
    assert!(!normal.is_unavailable());
}

#[test]
fn domain_is_the_part_before_the_first_dot() {
    assert_eq!(domain_of("light.kitchen"), "light");
    assert_eq!(domain_of("binary_sensor.door.front"), "binary_sensor");
    assert_eq!(domain_of("nodot"), "nodot");
    assert_eq!(domain_of(".x"), "");
    assert_eq!(domain_of(""), "");
}

#[test]
fn display_state_by_domain() {
    let light = Entity::from_state(state_from_json(
        r#"{"entity_id": "light.a", "state": "on", "attributes": {"brightness": 128}, "last_updated": null, "last_changed": null}"#,
    ));
    assert_eq!(light.display_state(), StateText::Text("on (brightness 128/255)".into()));
    let dark = Entity::from_state(state_from_json(
        r#"{"entity_id": "light.b", "state": "off", "attributes": {"brightness": 128}, "last_updated": null, "last_changed": null}"#,
    ));
    assert_eq!(dark.display_state(), StateText::Text("off".into()));
    let plain_on = Entity::from_state(state_from_json(
        r#"{"entity_id": "light.c", "state": "on", "attributes": {}, "last_updated": null, "last_changed": null}"#,
    ));
    assert_eq!(plain_on.display_state(), StateText::Text("on".into()));
    let switch = Entity::from_state(state_from_json(
        r#"{"entity_id": "switch.s", "state": "unavailable", "attributes": {}, "last_updated": null, "last_changed": null}"#,
    ));
    assert_eq!(switch.display_state(), StateText::Text("off".into()));
    let sensor = Entity::from_state(state_from_json(
        r#"{"entity_id": "sensor.t", "state": "20.5", "attributes": {"unit_of_measurement": "°C"}, "last_updated": null, "last_changed": null}"#,
    ));
    assert_eq!(sensor.display_state(), StateText::Sensor { value: "20.5".into(), unit: Some("°C".into()) });
    let climate = Entity::from_state(state_from_json(
        r#"{"entity_id": "climate.k", "state": "heat", "attributes": {"current_temperature": 21.5, "temperature": 22}, "last_updated": null, "last_changed": null}"#,
    ));
    assert_eq!(
        climate.display_state(),
        StateText::Climate { hvac_mode: "heat".into(), current: Some("21.5".into()), target: Some("22".into()) }
    );
    let person = Entity::from_state(state_from_json(
        r#"{"entity_id": "person.p", "state": "home", "attributes": {}, "last_updated": null, "last_changed": null}"#,
    ));
    assert_eq!(person.display_state(), StateText::Text("home".into()));
}

#[test]
fn brightness_and_colour_temperature_are_read_as_integers() {
    let light = Entity::from_state(state_from_json(
        r#"{"entity_id": "light.a", "state": "on", "attributes": {"brightness": 300, "color_temp": 370}, "last_updated": null, "last_changed": null}"#,
    ));
    let view = light.as_light().unwrap();
    assert_eq!(view.brightness(), Some(44));
    assert_eq!(view.color_temp(), Some(370));
    let fractional = Entity::from_state(state_from_json(
        r#"{"entity_id": "light.b", "state": "on", "attributes": {"brightness": 12.5}, "last_updated": null, "last_changed": null}"#,
    ));
    assert_eq!(fractional.as_light().unwrap().brightness(), None);
}
