//! The render request's effective values and how layered settings combine.
//!
//! Settings come from four places: built-in defaults, the config file,
//! options embedded in a re-rendered SVG, and the command line. A flag given
//! on the command line always wins, embedded options beat the config file,
//! and the config file beats the built-in default.
use vstd::prelude::*;

use crate::render::{ChromeStyle, CursorStyle};

verus! {

/// Serialization helper: whether a flag is off (and so left out).
pub fn is_false(b: &bool) -> (r: bool)
    ensures
        r == !*b,
{
    !*b
}

/// The theme name, `dracula` when none is set.
pub fn effective_theme(theme: Option<&str>) -> (name: &str)
    ensures
        name@ == match theme {
            Some(t) => t@,
            None => "dracula"@,
        },
{
    match theme {
        Some(t) => t,
        None => "dracula",
    }
}

/// The terminal grid, 80×24 unless set.
pub fn effective_grid(cols: Option<usize>, rows: Option<usize>) -> (grid: (usize, usize))
    ensures
        grid.0 == match cols {
            Some(c) => c,
            None => 80,
        },
        grid.1 == match rows {
            Some(r) => r,
            None => 24,
        },
{
    let c = match cols {
        Some(c) => c,
        None => 80,
    };
    let r = match rows {
        Some(r) => r,
        None => 24,
    };
    (c, r)
}

/// The cursor shape, a block unless set.
pub fn effective_cursor(cursor: Option<CursorStyle>) -> (c: CursorStyle)
    ensures
        c == match cursor {
            Some(c) => c,
            None => CursorStyle::Block,
        },
{
    match cursor {
        Some(c) => c,
        None => CursorStyle::Block,
    }
}

/// The effective chrome style: `--no-window` and `--no-background` both
/// force a bare panel; otherwise the chosen style, macOS by default.
pub fn effective_chrome(chrome: Option<ChromeStyle>, no_window: bool, no_background: bool) -> (c:
    ChromeStyle)
    ensures
        c == if no_window || no_background {
            ChromeStyle::Bare
        } else {
            match chrome {
                Some(c) => c,
                None => ChromeStyle::Macos,
            }
        },
{
    if no_window || no_background {
        ChromeStyle::Bare
    } else {
        match chrome {
            Some(c) => c,
            None => ChromeStyle::Macos,
        }
    }
}

/// Whether to draw the window shadow: `--no-background` leaves nothing to
/// cast one.
pub fn effective_shadow(no_shadow: bool, no_background: bool) -> (b: bool)
    ensures
        b == (!no_shadow && !no_background),
{
    !no_shadow && !no_background
}

/// Both dual-theme names, when the pair is requested.
pub fn dual_themes<'a>(light: Option<&'a str>, dark: Option<&'a str>) -> (pair: Option<(&'a str, &'a str)>)
    ensures
        match pair {
            Some((l, d)) => light == Some(l) && dark == Some(d),
            None => light is None || dark is None,
        },
{
    match (light, dark) {
        (Some(l), Some(d)) => Some((l, d)),
        _ => None,
    }
}

/// Whether to render a still: `--static`, or `--at` a given time.
pub fn is_static(static_: bool, at_given: bool) -> (b: bool)
    ensures
        b == (static_ || at_given),
{
    static_ || at_given
}

/// The light and dark themes must be set together (across every source of
/// settings).
pub fn themes_paired(light_set: bool, dark_set: bool) -> (ok: bool)
    ensures
        ok == (light_set == dark_set),
{
    light_set == dark_set
}

/// A layered setting: `value` from a lower-precedence source replaces the
/// current value unless the flag was given on the command line.
pub open spec fn overlay_spec<T>(current: T, from_cli: bool, value: Option<T>) -> T {
    match value {
        Some(v) => if from_cli {
            current
        } else {
            v
        },
        None => current,
    }
}

/// Applies one layer to one setting.
pub fn overlay<T>(current: T, from_cli: bool, value: Option<T>) -> (r: T)
    ensures
        r == overlay_spec(current, from_cli, value),
{
    match value {
        Some(v) => if from_cli {
            current
        } else {
            v
        },
        None => current,
    }
}

/// Applies an embedded on/off flag: embedded flags are effective values of
/// the original render, so they copy over whenever the flag is not on the
/// command line.
pub fn overlay_flag(current: bool, from_cli: bool, value: bool) -> (r: bool)
    ensures
        r == if from_cli {
            current
        } else {
            value
        },
{
    if from_cli {
        current
    } else {
        value
    }
}

/// Config first, then embedded options: the command line beats embedded
/// options, which beat the config file, which beats the built-in default.
pub proof fn overlay_precedence<T>(parsed: T, from_cli: bool, config: Option<T>, embedded: Option<T>)
    ensures
        overlay_spec(overlay_spec(parsed, from_cli, config), from_cli, embedded) == if from_cli {
            parsed
        } else {
            match embedded {
                Some(e) => e,
                None => match config {
                    Some(c) => c,
                    None => parsed,
                },
            }
        },
{
}

} // verus!
