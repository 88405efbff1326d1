use ha_tui::config::{chosen_dashboard, is_blank, Config, ConfigError, DashboardCard, DashboardTab};

fn config(url: &str, token: &str) -> Config {
    Config { ha_url: url.into(), ha_token: token.into(), insecure_skip_verify: false }
}

#[test]
fn a_config_with_url_and_token_is_valid() {
    assert_eq!(config("http://ha.local:8123", "abc").validate(), Ok(()));
}

#[test]
fn a_blank_url_is_refused_first() {
    assert_eq!(config("", "abc").validate(), Err(ConfigError::EmptyUrl));
    assert_eq!(config("  \t", "").validate(), Err(ConfigError::EmptyUrl));
    assert_eq!(ConfigError::EmptyUrl.message(), "config `ha_url` must not be empty");
}

#[test]
fn a_blank_token_is_refused() {
    assert_eq!(config("http://ha.local", " \n ").validate(), Err(ConfigError::EmptyToken));
    assert_eq!(ConfigError::EmptyToken.message(), "config `ha_token` must not be empty");
}

#[test]
fn blank_means_only_whitespace() {
    assert!(is_blank(""));
    assert!(is_blank(" \t\r\n"));
    assert!(is_blank("\u{3000}"));
    assert!(!is_blank(" x "));
}

#[test]
fn a_tab_lists_its_plain_ids_as_one_untitled_card_before_its_cards() {
    let mut tab = DashboardTab::new("Home", vec!["light.a".into()]);
    tab.cards = vec![DashboardCard { title: Some("Sensors".into()), entity_ids: vec!["sensor.t".into()], ..Default::default() }];
    let cards = tab.resolved_cards();
    assert_eq!(cards.len(), 2);
    assert_eq!(cards[0].title, None);
    assert_eq!(cards[0].entity_ids, vec!["light.a".to_string()]);
    assert!(cards[0].graph_entity_ids.is_empty());
    assert_eq!(cards[1].title.as_deref(), Some("Sensors"));

    let only_cards = DashboardTab { name: "X".into(), entity_ids: vec![], cards: vec![DashboardCard::default()] };
    assert_eq!(only_cards.resolved_cards().len(), 1);
}

#[test]
fn configured_tabs_win_over_imported_ones_and_imported_ones_fill_in() {
    let configured = vec![DashboardTab::new("Mine", vec!["light.a".to_string()])];
    let imported = vec![DashboardTab::new("Home", vec!["switch.b".to_string()])];
    let chosen = chosen_dashboard(configured.clone(), imported.clone());
    assert_eq!(chosen.len(), 1);
    assert_eq!(chosen[0].name, "Mine");
    let chosen = chosen_dashboard(vec![], imported);
    assert_eq!(chosen[0].name, "Home");
    assert!(chosen_dashboard(vec![], vec![]).is_empty());
}
