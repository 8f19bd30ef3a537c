use cadence::appearance::{
    AppearanceChange, AppearancePreview, ThemeEntry, ThemeFilter, ThemeMode, normalize,
    resolved_font_family, resolved_font_size, resolved_theme_name, theme_card_marks, visible_fonts, visible_themes,
};
use cadence::store::{AppearanceMode, AppearancePreferences};

fn catalog() -> Vec<ThemeEntry> {
    vec![
        ThemeEntry { name: "Default Light".to_owned(), mode: ThemeMode::Light },
        ThemeEntry { name: "Default Dark".to_owned(), mode: ThemeMode::Dark },
        ThemeEntry { name: "Ayu Light".to_owned(), mode: ThemeMode::Light },
        ThemeEntry { name: "Ayu Dark".to_owned(), mode: ThemeMode::Dark },
    ]
}

#[test]
fn unsupported_font_sizes_fall_back_to_the_default_preset() {
    assert_eq!(resolved_font_size(14), 14);
    assert_eq!(resolved_font_size(16), 16);
    assert_eq!(resolved_font_size(18), 18);
    assert_eq!(resolved_font_size(15), 16);
    assert_eq!(resolved_font_size(24), 16);
}

#[test]
fn missing_themes_and_fonts_fall_back_to_the_defaults() {
    let normalized = normalize(
        &AppearancePreferences {
            mode: AppearanceMode::Dark,
            light_theme: "Missing light".to_owned(),
            dark_theme: "Missing dark".to_owned(),
            font_family: "Missing font".to_owned(),
            font_size: 15,
        },
        &catalog(),
        &["Inter".to_owned()],
    );
    assert_eq!(normalized.mode, AppearanceMode::Dark);
    assert_eq!(normalized.light_theme, "Default Light");
    assert_eq!(normalized.dark_theme, "Default Dark");
    assert_eq!(normalized.font_family, ".SystemUIFont");
    assert_eq!(normalized.font_size, 16);
}

#[test]
fn installed_themes_are_kept_only_for_their_own_mode() {
    let catalog = catalog();
    assert_eq!(resolved_theme_name(&"Ayu Light".to_owned(), ThemeMode::Light, &catalog), "Ayu Light");
    assert_eq!(resolved_theme_name(&"Ayu Light".to_owned(), ThemeMode::Dark, &catalog), "Default Dark");
    assert_eq!(resolved_font_family(&"Inter".to_owned(), &["Inter".to_owned()]), "Inter");
    assert_eq!(resolved_font_family(&".SystemUIFont".to_owned(), &[]), ".SystemUIFont");
}

#[test]
fn theme_filters_match_their_modes() {
    assert!(ThemeFilter::All.matches(ThemeMode::Dark));
    assert!(ThemeFilter::Light.matches(ThemeMode::Light));
    assert!(!ThemeFilter::Light.matches(ThemeMode::Dark));
    assert!(ThemeFilter::Dark.matches(ThemeMode::Dark));
}

#[test]
fn previewing_then_restoring_shows_the_committed_appearance_again() {
    let initial = AppearancePreferences::default_preferences();
    let mut state = AppearancePreview::new(&initial);
    let shown = state.preview_change(&AppearanceChange::Theme {
        name: "Ayu Dark".to_owned(),
        mode: ThemeMode::Dark,
    });
    assert_eq!(shown.dark_theme, "Ayu Dark");
    assert_eq!(shown.mode, AppearanceMode::Dark);
    assert!(state.is_previewing());
    assert_eq!(state.effective(), shown);
    assert!(state.restore());
    assert!(!state.is_previewing());
    assert_eq!(state.effective(), initial);
    assert!(!state.restore());
}

#[test]
fn committing_keeps_the_mode_and_resets_restore_defaults() {
    let initial = AppearancePreferences::default_preferences();
    let mut state = AppearancePreview::new(&initial);
    let stored = state.commit_change(&AppearanceChange::Theme {
        name: "Ayu Light".to_owned(),
        mode: ThemeMode::Light,
    });
    assert_eq!(stored.light_theme, "Ayu Light");
    assert_eq!(stored.mode, AppearanceMode::System);
    assert_eq!(state.effective(), stored);
    let sized = state.commit_change(&AppearanceChange::FontSize(18));
    assert_eq!(sized.font_size, 18);
    let reset = state.reset_typography();
    assert_eq!(reset.font_size, 16);
    assert_eq!(reset.light_theme, "Ayu Light");
    let themes = state.reset_themes();
    assert_eq!(themes.light_theme, "Default Light");
    assert_eq!(themes.mode, AppearanceMode::System);
}

#[test]
fn observing_a_new_window_appearance_drops_the_preview() {
    let initial = AppearancePreferences::default_preferences();
    let mut state = AppearancePreview::new(&initial);
    state.preview_change(&AppearanceChange::FontFamily("Inter".to_owned()));
    assert!(!state.observe(&initial));
    assert!(state.is_previewing());
    let mut changed = initial.clone();
    changed.font_size = 14;
    assert!(state.observe(&changed));
    assert!(!state.is_previewing());
    assert_eq!(state.effective(), changed);
}

#[test]
fn normalizing_twice_changes_nothing_more() {
    let fonts = vec!["Inter".to_owned()];
    let once = normalize(
        &AppearancePreferences {
            mode: AppearanceMode::Light,
            light_theme: "Ayu Light".to_owned(),
            dark_theme: "Ayu Light".to_owned(),
            font_family: "Missing font".to_owned(),
            font_size: 17,
        },
        &catalog(),
        &fonts,
    );
    assert_eq!(once.dark_theme, "Default Dark");
    assert_eq!(once.font_family, ".SystemUIFont");
    assert_eq!(once.font_size, 16);
    assert_eq!(normalize(&once, &catalog(), &fonts), once);
}

#[test]
fn theme_and_font_searches_ignore_case() {
    assert_eq!(visible_themes(&catalog(), ThemeFilter::All, ""), vec![0, 1, 2, 3]);
    assert_eq!(visible_themes(&catalog(), ThemeFilter::Dark, ""), vec![1, 3]);
    assert_eq!(visible_themes(&catalog(), ThemeFilter::All, "AYU"), vec![2, 3]);
    assert_eq!(visible_themes(&catalog(), ThemeFilter::Light, "t li"), vec![0]);
    assert!(visible_themes(&catalog(), ThemeFilter::All, "solarized").is_empty());
    let fonts = vec!["Inter".to_owned(), "JetBrains Mono".to_owned(), "Noto Sans Mono".to_owned()];
    assert_eq!(visible_fonts(&fonts, "mono"), vec![1, 2]);
    assert_eq!(visible_fonts(&fonts, ""), vec![0, 1, 2]);
    assert_eq!(visible_fonts(&fonts, "Ínter"), Vec::<usize>::new());
}

#[test]
fn theme_cards_mark_the_theme_of_their_mode() {
    let themes = catalog();
    let mut appearance = AppearancePreferences::default_preferences();
    appearance.light_theme = "Ayu Light".to_owned();
    let ayu_light = theme_card_marks(&themes[2], &appearance, false);
    assert!(ayu_light.selected && !ayu_light.previewed);
    assert!(theme_card_marks(&themes[2], &appearance, true).previewed);
    assert!(!theme_card_marks(&themes[0], &appearance, true).selected);
    assert!(!theme_card_marks(&themes[3], &appearance, true).previewed);
}
