//! Which tray icon to show: whether the desktop is dark, as far as its settings
//! tell, and the names of the icon files.

use vstd::prelude::*;
use crate::chars::{contains, from_chars, has_substring, lowercase, push_all, to_chars, to_lower};

verus! {

/// What the color scheme of the desktop says: dark if its name holds `dark`,
/// light if it holds `light` and not `dark`, nothing otherwise.
pub open spec fn color_scheme_verdict(output: Seq<char>) -> Option<bool> {
    if has_substring(output, "dark"@) {
        Some(true)
    } else if has_substring(output, "light"@) {
        Some(false)
    } else {
        None
    }
}

/// What the name of the widget theme says: dark if it holds `dark` in any case of
/// letters, nothing otherwise.
pub open spec fn widget_theme_verdict(output: Seq<char>) -> Option<bool> {
    if has_substring(lowercase(output), "dark"@) {
        Some(true)
    } else {
        None
    }
}

/// Whether the desktop is dark. The color scheme is asked first, then the widget
/// theme; `None` stands for a setting that could not be read. Where neither
/// tells, the desktop is taken to be dark.
pub open spec fn dark_desktop(color_scheme: Option<Seq<char>>, widget_theme: Option<Seq<char>>)
    -> bool {
    let first = match color_scheme {
        Some(output) => color_scheme_verdict(output),
        None => None,
    };
    let second = match widget_theme {
        Some(output) => widget_theme_verdict(output),
        None => None,
    };
    match first {
        Some(dark) => dark,
        None => match second {
            Some(dark) => dark,
            None => true,
        },
    }
}

/// What the color scheme of the desktop says.
pub fn theme_from_color_scheme(output: &str) -> (dark: Option<bool>)
    ensures
        dark == color_scheme_verdict(output@),
{
    let text = to_chars(output);
    if contains(&text, &to_chars("dark")) {
        Some(true)
    } else if contains(&text, &to_chars("light")) {
        Some(false)
    } else {
        None
    }
}

/// What the name of the widget theme says.
pub fn theme_from_widget_theme(output: &str) -> (dark: Option<bool>)
    ensures
        dark == widget_theme_verdict(output@),
{
    let lower = to_lower(output);
    if contains(&to_chars(lower.as_str()), &to_chars("dark")) {
        Some(true)
    } else {
        None
    }
}

/// The text of an optional setting.
pub open spec fn setting_text(setting: Option<&str>) -> Option<Seq<char>> {
    match setting {
        Some(s) => Some(s@),
        None => None,
    }
}

/// Whether the desktop is dark, from the two settings as far as they could be
/// read.
pub fn is_dark_theme(color_scheme: Option<&str>, widget_theme: Option<&str>) -> (dark: bool)
    ensures
        dark == dark_desktop(setting_text(color_scheme), setting_text(widget_theme)),
{
    let first = match color_scheme {
        Some(output) => theme_from_color_scheme(output),
        None => None,
    };
    match first {
        Some(dark) => dark,
        None => {
            let second = match widget_theme {
                Some(output) => theme_from_widget_theme(output),
                None => None,
            };
            match second {
                Some(dark) => dark,
                None => true,
            }
        },
    }
}

/// Only a color scheme that says light makes the desktop light: the widget theme
/// can say dark or nothing, and nothing means dark.
pub proof fn lemma_only_color_scheme_decides(
    color_scheme: Option<Seq<char>>,
    widget_theme: Option<Seq<char>>,
)
    ensures
        dark_desktop(color_scheme, widget_theme) == !(color_scheme is Some && color_scheme_verdict(
            color_scheme->0,
        ) == Some(false)),
{
}

/// The name of the tray icon for a theme. On a dark desktop the light icon is
/// shown, and on a light desktop the dark one, so that it stands out.
pub open spec fn themed_icon_name(dark: bool) -> Seq<char> {
    if dark {
        "quick-tray-icon-light.png"@
    } else {
        "quick-tray-icon-dark.png"@
    }
}

/// The names of the tray icon files to look for, in this order: the one for the
/// theme, then the one for any theme.
pub fn tray_icon_names(dark: bool) -> (names: (String, String))
    ensures
        names.0@ == themed_icon_name(dark),
        names.1@ == "quick-tray-icon.png"@,
{
    let suffix = if dark {
        to_chars("-light")
    } else {
        to_chars("-dark")
    };
    let mut themed = to_chars("quick-tray-icon");
    push_all(&mut themed, &suffix);
    push_all(&mut themed, &to_chars(".png"));
    proof {
        reveal_strlit("quick-tray-icon");
        reveal_strlit("-light");
        reveal_strlit("-dark");
        reveal_strlit(".png");
        reveal_strlit("quick-tray-icon-light.png");
        reveal_strlit("quick-tray-icon-dark.png");
        assert(themed@ =~= themed_icon_name(dark));
    }
    (from_chars(&themed), from_chars(&to_chars("quick-tray-icon.png")))
}

} // verus!
