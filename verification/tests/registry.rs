use ha_tui::app::registry::Registry;
use ha_tui::ha::protocol::{AreaEntry, DeviceEntry, EntityRegistryEntry};

fn areas() -> Vec<AreaEntry> {
    vec![
        AreaEntry {
            area_id: "living_room".into(),
            name: "Living Room".into(),
        },
        AreaEntry {
            area_id: "bedroom".into(),
            name: "Bedroom".into(),
        },
    ]
}

#[test]
fn entity_with_direct_area_id_resolves() {
    let registry = Registry::build(
        areas(),
        vec![],
        vec![EntityRegistryEntry {
            entity_id: "light.lamp".into(),
            device_id: None,
            area_id: Some("bedroom".into()),
        }],
    );
    assert_eq!(registry.area_name_for("light.lamp"), Some("Bedroom"));
}

#[test]
fn entity_inherits_area_from_its_device() {
    let registry = Registry::build(
        areas(),
        vec![DeviceEntry {
            id: "dev1".into(),
            area_id: Some("living_room".into()),
        }],
        vec![EntityRegistryEntry {
            entity_id: "switch.tv_socket".into(),
            device_id: Some("dev1".into()),
            area_id: None,
        }],
    );
    assert_eq!(registry.area_name_for("switch.tv_socket"), Some("Living Room"));
}

#[test]
fn direct_area_id_takes_precedence_over_device_area() {
    let registry = Registry::build(
        areas(),
        vec![DeviceEntry {
            id: "dev1".into(),
            area_id: Some("living_room".into()),
        }],
        vec![EntityRegistryEntry {
            entity_id: "sensor.x".into(),
            device_id: Some("dev1".into()),
            area_id: Some("bedroom".into()),
        }],
    );
    assert_eq!(registry.area_name_for("sensor.x"), Some("Bedroom"));
}

#[test]
fn entity_with_no_area_anywhere_resolves_to_none() {
    let registry = Registry::build(
        areas(),
        vec![DeviceEntry {
            id: "dev1".into(),
            area_id: None,
        }],
        vec![EntityRegistryEntry {
            entity_id: "sensor.sun_next_dawn".into(),
            device_id: Some("dev1".into()),
            area_id: None,
        }],
    );
    assert_eq!(registry.area_name_for("sensor.sun_next_dawn"), None);
}

#[test]
fn unknown_entity_resolves_to_none() {
    let registry = Registry::build(areas(), vec![], vec![]);
    assert_eq!(registry.area_name_for("sensor.not_in_registry"), None);
}

#[test]
fn empty_registry_knows_no_rooms() {
    let registry = Registry::default();
    assert_eq!(registry.area_name_for("light.lamp"), None);
    assert_eq!(Registry::new().area_name_for("light.lamp"), None);
}

#[test]
fn device_area_unknown_to_the_area_list_resolves_to_none() {
    let registry = Registry::build(
        areas(),
        vec![DeviceEntry { id: "dev1".into(), area_id: Some("garage".into()) }],
        vec![EntityRegistryEntry {
            entity_id: "light.garage".into(),
            device_id: Some("dev1".into()),
            area_id: None,
        }],
    );
    assert_eq!(registry.area_name_for("light.garage"), None);
}

#[test]
fn entity_whose_device_is_not_listed_has_no_room() {
    let registry = Registry::build(
        areas(),
        vec![],
        vec![EntityRegistryEntry {
            entity_id: "light.x".into(),
            device_id: Some("missing".into()),
            area_id: None,
        }],
    );
    assert_eq!(registry.area_name_for("light.x"), None);
}

#[test]
fn the_order_of_the_registry_lists_does_not_change_rooms() {
    let areas = vec![
        AreaEntry { area_id: "living_room".into(), name: "Living Room".into() },
        AreaEntry { area_id: "bedroom".into(), name: "Bedroom".into() },
    ];
    let devices = vec![
        DeviceEntry { id: "dev1".into(), area_id: Some("living_room".into()) },
        DeviceEntry { id: "dev2".into(), area_id: None },
    ];
    let entities = vec![
        EntityRegistryEntry { entity_id: "light.a".into(), device_id: Some("dev1".into()), area_id: None },
        EntityRegistryEntry { entity_id: "light.b".into(), device_id: Some("dev1".into()), area_id: Some("bedroom".into()) },
        EntityRegistryEntry { entity_id: "light.c".into(), device_id: Some("dev2".into()), area_id: None },
        EntityRegistryEntry { entity_id: "light.d".into(), device_id: None, area_id: Some("attic".into()) },
    ];
    let forward = Registry::build(areas.clone(), devices.clone(), entities.clone());
    let mut a2 = areas;
    a2.reverse();
    let mut d2 = devices;
    d2.reverse();
    let mut e2 = entities;
    e2.reverse();
    let backward = Registry::build(a2, d2, e2);
    for id in ["light.a", "light.b", "light.c", "light.d", "light.none"] {
        assert_eq!(forward.area_name_for(id), backward.area_name_for(id));
    }
    assert_eq!(forward.area_name_for("light.a"), Some("Living Room"));
    assert_eq!(forward.area_name_for("light.b"), Some("Bedroom"));
    assert_eq!(forward.area_name_for("light.c"), None);
    assert_eq!(forward.area_name_for("light.d"), None);
}
