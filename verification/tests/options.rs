use terminal_svg::options::{
    dual_themes, effective_chrome, effective_cursor, effective_grid, effective_shadow,
    effective_theme, is_false, is_static, overlay, overlay_flag, themes_paired,
};
use terminal_svg::render::{ChromeStyle, CursorStyle};

#[test]
fn unset_values_fall_back_to_cli_defaults() {
    assert_eq!(effective_theme(None), "dracula");
    assert_eq!(effective_theme(Some("nord")), "nord");
    assert_eq!(effective_grid(None, None), (80, 24));
    assert_eq!(effective_grid(Some(100), None), (100, 24));
    assert_eq!(effective_cursor(None), CursorStyle::Block);
    assert_eq!(effective_chrome(None, false, false), ChromeStyle::Macos);
    assert!(effective_shadow(false, false));
    assert!(!is_static(false, false));
}

#[test]
fn no_background_forces_a_bare_panel_without_shadow() {
    assert_eq!(effective_chrome(Some(ChromeStyle::Ubuntu), false, true), ChromeStyle::Bare);
    assert_eq!(effective_chrome(Some(ChromeStyle::Ubuntu), true, false), ChromeStyle::Bare);
    assert_eq!(effective_chrome(Some(ChromeStyle::Ubuntu), false, false), ChromeStyle::Ubuntu);
    assert!(!effective_shadow(false, true));
    assert!(!effective_shadow(true, false));
    assert!(is_static(false, true));
}

#[test]
fn dual_themes_need_both_names() {
    assert_eq!(dual_themes(Some("a"), Some("b")), Some(("a", "b")));
    assert_eq!(dual_themes(Some("a"), None), None);
    assert!(themes_paired(true, true));
    assert!(!themes_paired(true, false));
}

#[test]
fn command_line_beats_embedded_beats_config_beats_default() {
    // A flag from the command line is never overridden.
    let v = overlay(overlay(12, true, Some(16)), true, Some(20));
    assert_eq!(v, 12);
    // Otherwise the embedded value beats the config value.
    let v = overlay(overlay(14, false, Some(16)), false, Some(20));
    assert_eq!(v, 20);
    // With nothing embedded the config value stands.
    let v = overlay(overlay(14, false, Some(16)), false, None);
    assert_eq!(v, 16);
    assert_eq!(overlay(14, false, None), 14);
    assert!(overlay_flag(false, false, true));
    assert!(!overlay_flag(false, true, true));
    assert!(is_false(&false));
    assert!(!is_false(&true));
}
