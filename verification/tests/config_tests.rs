use novel_writer::config::AppConfig;

#[test]
fn test_default_config() {
    let config = AppConfig::default();
    assert_eq!(config.app_name, "Novel Writer");
    assert_eq!(config.theme.name, "light");
    assert!(config.editor.auto_save);
}

#[test]
fn default_config_details() {
    let config = AppConfig::default();
    assert_eq!(config.get_app_name(), "Novel Writer");
    assert_eq!(config.database_path, "./novel_writer.db");
    assert_eq!(config.auto_save_interval, 30);
    assert_eq!(config.theme.font_size, 14);
    assert!(config.editor.spell_check);
    assert_eq!(config.editor.tab_size, 4);
    assert!(config.editor.word_wrap);
}

#[test]
fn update_theme_and_editor() {
    let mut config = AppConfig::default();
    config.update_theme("dark".to_string(), "serif".to_string(), 16);
    assert_eq!(config.theme.name, "dark");
    assert_eq!(config.theme.font_family, "serif");
    assert_eq!(config.theme.font_size, 16);
    config.update_editor(false, false, 8, false);
    assert!(!config.editor.spell_check);
    assert!(!config.editor.auto_save);
    assert_eq!(config.editor.tab_size, 8);
    assert!(!config.editor.word_wrap);
    config.update_auto_save_interval(60);
    assert_eq!(config.auto_save_interval, 60);
    assert_eq!(config.get_version(), "0.1.0");
}
