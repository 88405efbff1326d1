use ha_tui::app::entity::Entity;
use ha_tui::ha::protocol::StateObject;
use ha_tui::json::Json;
use ha_tui::ui::cards::{columns_for, panel_rows, row_heights, row_hits, row_tone, selected_cell, truncate, PanelRows, RowHit, RowTone};
use ha_tui::ui::detail::{gutter_tick_rows, centered_percent, palette_index, x_tick_count, y_tick_count, PALETTE_LEN};
use ha_tui::ui::help::centered;
use ha_tui::ui::tabs::{tab_hits, TabHit};
use ha_tui::ui::Area;

fn ids(xs: &[&str]) -> Vec<String> {
    xs.iter().map(|s| s.to_string()).collect()
}

fn entity(id: &str, state: &str) -> Entity {
    Entity::from_state(StateObject {
        entity_id: id.into(),
        state: state.into(),
        attributes: Json::Object(vec![]),
        last_updated: None,
        last_changed: None,
    })
}

#[test]
fn color_at_follows_position_in_the_group_not_measurement_kind() {
    let group = ids(&["sensor.battery", "sensor.temp", "sensor.humidity"]);
    assert_eq!(palette_index(&group, "sensor.battery"), 0);
    assert_eq!(palette_index(&group, "sensor.temp"), 1);
    assert_eq!(palette_index(&group, "sensor.humidity"), 2);
}

#[test]
fn color_at_cycles_when_a_card_has_more_entities_than_palette_colors() {
    let group: Vec<String> = (0..PALETTE_LEN + 2).map(|i| format!("sensor.s{i}")).collect();
    assert_eq!(palette_index(&group, "sensor.s0"), 0);
    assert_eq!(palette_index(&group, &format!("sensor.s{}", PALETTE_LEN)), 0);
    assert_eq!(palette_index(&group, &format!("sensor.s{}", PALETTE_LEN + 1)), 1);
}

#[test]
fn an_unlisted_entity_takes_the_first_colour() {
    assert_eq!(palette_index(&ids(&["sensor.a"]), "sensor.zzz"), 0);
    assert_eq!(palette_index(&ids(&[]), "sensor.a"), 0);
}

#[test]
fn columns_follow_the_width_up_to_four_and_the_card_count() {
    assert_eq!(columns_for(80, 5), 2);
    assert_eq!(columns_for(10, 5), 1);
    assert_eq!(columns_for(200, 9), 4);
    assert_eq!(columns_for(200, 3), 3);
    assert_eq!(columns_for(200, 0), 0);
}

#[test]
fn the_flat_selection_maps_onto_a_panel_and_row() {
    let lens = vec![2, 0, 3];
    assert_eq!(selected_cell(&lens, 0), Some((0, 0)));
    assert_eq!(selected_cell(&lens, 1), Some((0, 1)));
    assert_eq!(selected_cell(&lens, 2), Some((2, 0)));
    assert_eq!(selected_cell(&lens, 4), Some((2, 2)));
    assert_eq!(selected_cell(&lens, 5), None);
    assert_eq!(selected_cell(&vec![], 0), None);
}

#[test]
fn grid_rows_are_as_tall_as_their_tallest_panel_within_bounds() {
    assert_eq!(row_heights(&vec![1, 4, 0, 20, 2], 2), vec![6, 12, 4]);
    assert_eq!(row_heights(&vec![0], 4), vec![3]);
    assert_eq!(row_heights(&vec![], 3), Vec::<u16>::new());
}

#[test]
fn a_short_panel_says_how_many_rows_it_left_out() {
    assert_eq!(panel_rows(6, 40, 10), PanelRows { visible_count: 3, hidden: 7, name_width: 20 });
    assert_eq!(panel_rows(12, 40, 3), PanelRows { visible_count: 3, hidden: 0, name_width: 20 });
    assert_eq!(panel_rows(2, 10, 3), PanelRows { visible_count: 3, hidden: 0, name_width: 10 });
    assert_eq!(panel_rows(6, 100, 4), PanelRows { visible_count: 4, hidden: 0, name_width: 53 });
}

#[test]
fn long_names_are_cut_with_an_ellipsis() {
    assert_eq!(truncate("Kitchen", 10), "Kitchen");
    assert_eq!(truncate("Kitchen", 7), "Kitchen");
    assert_eq!(truncate("Kitchen lamp", 8), "Kitchen\u{2026}");
    assert_eq!(truncate("abc", 0), "\u{2026}");
}

#[test]
fn rows_are_toned_by_state() {
    assert_eq!(row_tone(&entity("light.a", "on")), RowTone::On);
    assert_eq!(row_tone(&entity("sensor.b", "on")), RowTone::On);
    assert_eq!(row_tone(&entity("switch.c", "off")), RowTone::Normal);
    assert_eq!(row_tone(&entity("light.d", "unavailable")), RowTone::Unavailable);
    assert_eq!(row_tone(&entity("sensor.e", "unknown")), RowTone::Unavailable);
}

#[test]
fn row_hits_sit_inside_the_panel_borders() {
    let area = Area { x: 40, y: 3, width: 40, height: 5 };
    let hits = row_hits(area, 1, 7);
    assert_eq!(hits.len(), 3);
    assert_eq!(hits[0], RowHit { area: Area { x: 41, y: 4, width: 38, height: 1 }, card: 1, row: 0 });
    assert_eq!(hits[2].area.y, 6);
    assert!(hits[0].area.contains(41, 4));
    assert!(!hits[0].area.contains(41, 5));
    assert!(row_hits(Area { x: 0, y: 0, width: 10, height: 2 }, 0, 3).is_empty());
}

#[test]
fn tab_titles_are_laid_out_with_padding_and_dividers() {
    let inner = Area { x: 1, y: 1, width: 30, height: 1 };
    let hits = tab_hits(inner, &vec![5, 6, 20]);
    assert_eq!(
        hits,
        vec![
            TabHit { area: Area { x: 2, y: 1, width: 5, height: 1 }, index: 0 },
            TabHit { area: Area { x: 12, y: 1, width: 6, height: 1 }, index: 1 },
            TabHit { area: Area { x: 23, y: 1, width: 8, height: 1 }, index: 2 },
        ]
    );
    assert!(tab_hits(Area { x: 0, y: 0, width: 1, height: 1 }, &vec![3]).is_empty());
}

#[test]
fn overlays_are_centred() {
    let screen = Area { x: 0, y: 0, width: 100, height: 40 };
    assert_eq!(centered(60, 10, screen), Area { x: 20, y: 15, width: 60, height: 10 });
    assert_eq!(centered(200, 50, screen), screen);
    assert_eq!(centered_percent(screen, 80, 70), Area { x: 10, y: 6, width: 80, height: 28 });
}

#[test]
fn a_percentage_over_a_hundred_starts_at_the_edge() {
    let screen = Area { x: 5, y: 2, width: 100, height: 40 };
    assert_eq!(centered_percent(screen, 150, 50), Area { x: 5, y: 12, width: 150, height: 20 });
}

#[test]
fn chart_ticks_fit_the_popup() {
    assert_eq!(x_tick_count(10), 2);
    assert_eq!(x_tick_count(60), 5);
    assert_eq!(x_tick_count(500), 8);
    assert_eq!(y_tick_count(4), 2);
    assert_eq!(y_tick_count(20), 5);
    assert_eq!(y_tick_count(100), 6);
}

#[test]
fn secondary_axis_ticks_land_on_the_charts_rows() {
    let area = Area { x: 10, y: 5, width: 80, height: 28 };
    let chart = Area { x: 10, y: 5, width: 73, height: 28 };
    // Inner rows 6..=31; the bottom two inner rows hold the time axis, so
    // the plot spans rows 6..=29 (24 rows).
    assert_eq!(gutter_tick_rows(chart, area, 3), vec![(0, 29), (1, 18), (2, 6)]);
    assert_eq!(gutter_tick_rows(chart, area, 1), vec![(0, 29)]);
    // No room right of the chart: nothing.
    assert!(gutter_tick_rows(area, area, 3).is_empty());
}
