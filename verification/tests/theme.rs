use terminal_svg::theme::{
    names, theme_info, theme_infos, theme_source, xterm_indexed, VtColor, ColorError, Rgb, Theme,
    ThemeSource,
};

fn dracula() -> Theme {
    let c = |s: &str| Rgb::parse(s).unwrap();
    Theme {
        name: "dracula".to_string(),
        foreground: c("#f8f8f2"),
        background: c("#282a36"),
        palette: [
            c("#21222c"),
            c("#ff5555"),
            c("#50fa7b"),
            c("#f1fa8c"),
            c("#bd93f9"),
            c("#ff79c6"),
            c("#8be9fd"),
            c("#f8f8f2"),
            c("#6272a4"),
            c("#ff6e6e"),
            c("#69ff94"),
            c("#ffffa5"),
            c("#d6acff"),
            c("#ff92df"),
            c("#a4ffff"),
            c("#ffffff"),
        ],
        title_fg: c("#6272a4"),
        lights: [c("#ff5f57"), c("#febc2e"), c("#28c840")],
        button_fg: c("#6272a4"),
        button_bg: c("#2f3240"),
        bar_bg: None,
        bar_fg: None,
    }
}

#[test]
fn parses_hex_colors() {
    assert_eq!(Rgb::parse("#ff5555").unwrap(), Rgb::new(0xff, 0x55, 0x55));
    assert_eq!(Rgb::parse("fff").unwrap(), Rgb::new(0xff, 0xff, 0xff));
    assert!(Rgb::parse("#12345").is_err());
}

#[test]
fn resolves_256_color_cube() {
    let theme = dracula();
    // 16 is black corner of the cube
    assert_eq!(theme.resolve(VtColor::Indexed(16)), Rgb::new(0, 0, 0));
    // 231 is white corner
    assert_eq!(theme.resolve(VtColor::Indexed(231)), Rgb::new(255, 255, 255));
    // 196 is pure red (5,0,0): 55 + 40*5 = 255
    assert_eq!(theme.resolve(VtColor::Indexed(196)), Rgb::new(255, 0, 0));
    // grayscale ramp
    assert_eq!(theme.resolve(VtColor::Indexed(232)), Rgb::new(8, 8, 8));
    assert_eq!(theme.resolve(VtColor::Indexed(255)), Rgb::new(238, 238, 238));
}

#[test]
fn color_errors_tell_length_from_digits() {
    assert_eq!(Rgb::parse("#12345"), Err(ColorError::BadLength));
    assert_eq!(Rgb::parse("#gggggg"), Err(ColorError::InvalidHex));
    assert_eq!(Rgb::parse("#abc"), Ok(Rgb::new(0xaa, 0xbb, 0xcc)));
}

#[test]
fn hex_writes_lowercase_and_reads_back() {
    let c = Rgb::new(0xAB, 0x0c, 0x7f);
    assert_eq!(c.hex(), "#ab0c7f");
    assert_eq!(Rgb::parse(&c.hex()), Ok(c));
}

#[test]
fn palette_and_truecolor_resolve() {
    let theme = dracula();
    assert_eq!(theme.resolve(VtColor::Indexed(1)), Rgb::new(0xff, 0x55, 0x55));
    assert_eq!(theme.resolve(VtColor::Rgb(Rgb::new(1, 2, 3))), Rgb::new(1, 2, 3));
    assert_eq!(xterm_indexed(21), Rgb::new(0, 0, 255));
    assert_eq!(xterm_indexed(59), Rgb::new(95, 95, 95));
}

#[test]
fn builtin_names_in_registry_order() {
    let n = names();
    assert_eq!(n.len(), 9);
    assert_eq!(n[0], "dracula");
    assert_eq!(n[8], "ubuntu");
}

#[test]
fn theme_sources_follow_the_lookup_rules() {
    assert_eq!(theme_source("nord"), ThemeSource::Builtin(2));
    assert_eq!(theme_source("themes/mine.toml"), ThemeSource::File);
    assert_eq!(theme_source("mine.toml"), ThemeSource::File);
    assert_eq!(theme_source("./x"), ThemeSource::File);
    assert_eq!(theme_source("nope"), ThemeSource::Unknown);
}

#[test]
fn theme_infos_list_loaded_themes_in_order() {
    let info = theme_info("dracula", &dracula());
    assert_eq!(info.bg, "#282a36");
    assert_eq!(info.fg, "#f8f8f2");
    assert_eq!(info.palette.len(), 16);
    assert_eq!(info.palette[1], "#ff5555");

    let mut loaded: Vec<Option<Theme>> = vec![None; 9];
    loaded[0] = Some(dracula());
    loaded[4] = Some(dracula());
    let infos = theme_infos(&loaded);
    assert_eq!(infos.len(), 2);
    assert_eq!(infos[0].name, "dracula");
    assert_eq!(infos[1].name, "github-dark");
}

#[test]
fn only_the_ansi_sixteen_depend_on_the_theme() {
    let a = dracula();
    let mut b = dracula();
    b.palette = [Rgb::new(1, 1, 1); 16];
    for i in 16..=255u8 {
        assert_eq!(a.resolve(VtColor::Indexed(i)), b.resolve(VtColor::Indexed(i)));
    }
    let c = VtColor::Rgb(Rgb::new(7, 8, 9));
    assert_eq!(a.resolve(c), b.resolve(c));
    assert_ne!(a.resolve(VtColor::Indexed(1)), b.resolve(VtColor::Indexed(1)));
}

#[test]
fn only_hex_digits_make_a_colour() {
    assert_eq!(Rgb::parse("+ff"), Err(ColorError::InvalidHex));
    assert_eq!(Rgb::parse("#+fffff"), Err(ColorError::InvalidHex));
    assert_eq!(Rgb::parse("#ABCDEF"), Ok(Rgb::new(0xab, 0xcd, 0xef)));
    assert_eq!(Rgb::parse("##fff"), Err(ColorError::BadLength));
    assert_eq!(Rgb::parse(""), Err(ColorError::BadLength));
}
