use blockdelete::ui::{
    UiMode, UiState, ui_snapshot, ui_log, ui_set_mic, ui_set_rcon, ui_set_player_online,
    classify_overlay_error, is_rcon_error_like, FooterButton, SettingsTab, SettingsField,
    settings_fields_for_tab, settings_field_next_in_tab, settings_field_prev_in_tab,
    default_field_for_tab,
};

fn fresh_state() -> UiState {
    UiState::new(
        "Steve".to_string(),
        "127.0.0.1".to_string(),
        25575,
        "SECRET-REDACTED".to_string(),
        UiMode::Tui,
    )
}

#[test]
fn ui_mode_config_round_trip() {
    assert_eq!(UiMode::Tui.as_config_str(), "tui");
    assert_eq!(UiMode::Qt.as_config_str(), "qt");
    assert_eq!(UiMode::from_config_str("tui"), Some(UiMode::Tui));
    assert_eq!(UiMode::from_config_str("  QT  "), Some(UiMode::Qt));
    assert_eq!(UiMode::from_config_str("web"), None);
    assert_eq!(UiMode::from_config_str(""), None);
}

#[test]
fn log_deduplicates_consecutive_repeats() {
    let mut ui = fresh_state();
    ui_log(&mut ui, "[startup] ready".to_string());
    ui_log(&mut ui, "[startup] ready".to_string());
    ui_log(&mut ui, "[startup] ready".to_string());
    ui_log(&mut ui, "another".to_string());
    let snap = ui_snapshot(&ui);
    assert_eq!(snap.logs, vec!["[startup] ready (3x)".to_string(), "another".to_string()]);
}

#[test]
fn log_capacity_drops_oldest() {
    let mut ui = fresh_state();
    for i in 0..300 {
        ui_log(&mut ui, format!("line {i}"));
    }
    let snap = ui_snapshot(&ui);
    assert_eq!(snap.logs.len(), 256);
    assert_eq!(snap.logs[0], "line 44");
    assert_eq!(snap.logs[255], "line 299");
}

#[test]
fn overlay_raised_by_errors_and_cleared_by_recovery() {
    let mut ui = fresh_state();
    ui_log(&mut ui, "[rcon-player-error] cannot locate Steve".to_string());
    assert!(ui_snapshot(&ui).overlay_error.is_some());
    ui_set_player_online(&mut ui, true);
    assert!(ui_snapshot(&ui).overlay_error.is_none());
    ui_set_mic(&mut ui, false);
    assert!(ui_snapshot(&ui).overlay_error.is_none());
}

#[test]
fn overlay_classification() {
    assert_eq!(classify_overlay_error("all fine"), None);
    assert_eq!(
        classify_overlay_error("[notify-error] tell failed"),
        Some("[notify-error] tell failed".to_string())
    );
    // authentication failures get the fixed banner
    let auth = classify_overlay_error("RCON authentication failed").unwrap();
    assert_eq!(
        auth,
        "RCON: \u{043e}\u{0448}\u{0438}\u{0431}\u{043a}\u{0430} \u{0430}\u{0443}\u{0442}\u{0435}\u{043d}\u{0442}\u{0438}\u{0444}\u{0438}\u{043a}\u{0430}\u{0446}\u{0438}\u{0438}"
    );
}

#[test]
fn server_error_detection() {
    assert!(is_rcon_error_like("Unknown or incomplete command, see below"));
    assert!(is_rcon_error_like("some ERROR text"));
    assert!(is_rcon_error_like(
        "\u{041e}\u{0448}\u{0438}\u{0431}\u{043a}\u{0430}: nope"
    ));
    assert!(!is_rcon_error_like("Steve has 20 health"));
}

#[test]
fn rcon_status_does_not_touch_flags_of_others() {
    let mut ui = fresh_state();
    ui_set_mic(&mut ui, true);
    ui_set_rcon(&mut ui, true);
    let snap = ui_snapshot(&ui);
    assert!(snap.mic_ok && snap.rcon_ok && !snap.rec_ok && !snap.player_online);
    assert_eq!(snap.player_name, "Steve");
    assert_eq!(snap.rcon_port, 25575);
    assert_eq!(snap.ui_mode, UiMode::Tui);
}

#[test]
fn footer_and_tab_navigation_cycles() {
    assert_eq!(FooterButton::Settings.next(), FooterButton::Exit);
    assert_eq!(FooterButton::Exit.next(), FooterButton::Settings);
    assert_eq!(FooterButton::Settings.prev(), FooterButton::Exit);
    assert_eq!(SettingsTab::Connection.next(), SettingsTab::App);
    assert_eq!(SettingsTab::App.prev(), SettingsTab::Connection);
}

#[test]
fn settings_field_navigation_wraps() {
    let conn = settings_fields_for_tab(SettingsTab::Connection);
    assert_eq!(
        conn,
        vec![SettingsField::Host, SettingsField::Port, SettingsField::Password]
    );
    assert_eq!(default_field_for_tab(SettingsTab::App), SettingsField::PlayerName);
    assert_eq!(
        settings_field_next_in_tab(SettingsField::Password, SettingsTab::Connection),
        SettingsField::Host
    );
    assert_eq!(
        settings_field_prev_in_tab(SettingsField::Host, SettingsTab::Connection),
        SettingsField::Password
    );
    // a field from the other tab falls back to the first slot's successor
    assert_eq!(
        settings_field_next_in_tab(SettingsField::Host, SettingsTab::App),
        SettingsField::UiModeField
    );
}
