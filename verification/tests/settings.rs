use gtllm::{Settings, Theme, ThemeMode};
use gtllm::types::{AppView, ChatMode, InputSettings};

#[test]
fn test_default_settings() {
    let settings = Settings::default();
    assert_eq!(settings.openrouter_api_key, None);
    assert_eq!(settings.theme, "dracula");
    assert_eq!(settings.theme_mode, ThemeMode::Dark);
}

#[test]
fn test_has_api_key() {
    let mut settings = Settings::default();
    assert!(!settings.has_api_key());

    settings.set_api_key("test-key".to_string());
    assert!(settings.has_api_key());

    settings.clear_api_key();
    assert!(!settings.has_api_key());
}

#[test]
fn api_key_reads_back_what_was_set() {
    let mut settings = Settings::default();
    assert_eq!(settings.get_api_key(), None);
    settings.set_api_key("sk-or-abc".to_string());
    assert_eq!(settings.get_api_key(), Some("sk-or-abc"));
    assert_eq!(settings.theme, "dracula");
    settings.clear_api_key();
    assert_eq!(settings.get_api_key(), None);
    assert_eq!(settings.theme_mode, ThemeMode::Dark);
}

#[test]
fn themes_split_into_dark_and_light() {
    let all = Theme::all();
    assert_eq!(all.len(), 6);
    assert_eq!(Theme::dark_themes(), vec![Theme::Dracula, Theme::Night, Theme::Dim]);
    assert_eq!(Theme::light_themes(), vec![Theme::Winter, Theme::Black, Theme::Nord]);
    for t in all {
        assert_eq!(t.is_dark(), !t.is_light());
        assert_eq!(t.is_dark(), Theme::dark_themes().contains(&t));
    }
}

#[test]
fn theme_names() {
    assert_eq!(Theme::Dracula.name(), "Dracula");
    assert_eq!(Theme::Dracula.data_theme(), "dracula");
    assert_eq!(Theme::Winter.name(), "Winter");
    assert_eq!(Theme::Nord.data_theme(), "nord");
}

#[test]
fn chat_mode_names_and_descriptions() {
    assert_eq!(ChatMode::Standard.name(), "Standard");
    assert_eq!(ChatMode::LLMChoice.name(), "LLM's Choice");
    assert_eq!(ChatMode::PvP.description(), "2 bots compete, 1 moderator judges");
    assert_eq!(
        ChatMode::Competitive.description(),
        "All bots vote for the best (can't vote for their own)"
    );
    let view = AppView::ChatMode(ChatMode::PvP);
    assert_eq!(view, AppView::ChatMode(ChatMode::PvP));
    let input = InputSettings { ctrl_enter_submit: true };
    assert!(input.ctrl_enter_submit);
}
