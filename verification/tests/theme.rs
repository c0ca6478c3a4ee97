use irisnotes::item::ItemKind;
use irisnotes::theme::{
    is_dark_theme, theme_from_color_scheme, theme_from_widget_theme, tray_icon_names,
};

#[test]
fn color_scheme_names_the_theme() {
    assert_eq!(theme_from_color_scheme("'prefer-dark'\n"), Some(true));
    assert_eq!(theme_from_color_scheme("'prefer-light'\n"), Some(false));
    assert_eq!(theme_from_color_scheme("'default'\n"), None);
    assert_eq!(theme_from_color_scheme(""), None);
    // dark is looked for first
    assert_eq!(theme_from_color_scheme("light-on-dark"), Some(true));
    // the color scheme is read as it is written
    assert_eq!(theme_from_color_scheme("'prefer-DARK'"), None);
}

#[test]
fn widget_theme_can_only_say_dark() {
    assert_eq!(theme_from_widget_theme("'Adwaita-dark'\n"), Some(true));
    assert_eq!(theme_from_widget_theme("'Yaru-Dark'\n"), Some(true));
    assert_eq!(theme_from_widget_theme("'Adwaita'\n"), None);
    assert_eq!(theme_from_widget_theme("'HighContrast-light'\n"), None);
}

#[test]
fn desktop_is_dark_unless_the_color_scheme_says_light() {
    assert!(is_dark_theme(None, None));
    assert!(is_dark_theme(Some("'default'"), None));
    assert!(is_dark_theme(Some("'default'"), Some("'Adwaita'")));
    assert!(is_dark_theme(Some("'default'"), Some("'Adwaita-dark'")));
    assert!(is_dark_theme(Some("'prefer-dark'"), Some("'Adwaita'")));
    assert!(is_dark_theme(None, Some("'Adwaita'")));
    assert!(!is_dark_theme(Some("'prefer-light'"), None));
    assert!(!is_dark_theme(Some("'prefer-light'"), Some("'Adwaita-dark'")));
}

#[test]
fn tray_icon_stands_out_from_the_theme() {
    assert_eq!(
        tray_icon_names(true),
        ("quick-tray-icon-light.png".to_string(), "quick-tray-icon.png".to_string())
    );
    assert_eq!(
        tray_icon_names(false),
        ("quick-tray-icon-dark.png".to_string(), "quick-tray-icon.png".to_string())
    );
}

#[test]
fn item_kinds_by_name() {
    assert_eq!(ItemKind::parse("book"), Some(ItemKind::Book));
    assert_eq!(ItemKind::parse("section"), Some(ItemKind::Section));
    assert_eq!(ItemKind::parse("note"), Some(ItemKind::Note));
    assert_eq!(ItemKind::parse("Note"), None);
    assert_eq!(ItemKind::parse("folder"), None);
    assert_eq!(ItemKind::parse(""), None);
}
