use terminal_svg::render::{
    detect_title, shown_title,
    blend_half, line_attrs, palette_class, resolved_fg, space_free_segments, text_attrs,
    xml_escape, ChromeStyle, CursorStyle, FillMode,
};
use terminal_svg::term::screen::{PenColor, StyledRun};
use terminal_svg::theme::{Rgb, Theme};

#[test]
fn escapes_xml() {
    assert_eq!(xml_escape("a<b>&\"c\""), "a&lt;b&gt;&amp;&quot;c&quot;");
}

fn dracula() -> Theme {
    let c = |s: &str| Rgb::parse(s).unwrap();
    Theme {
        name: "dracula".to_string(),
        foreground: c("#f8f8f2"),
        background: c("#282a36"),
        palette: [
            c("#21222c"),
            c("#ff5555"),
            c("#50fa7b"),
            c("#f1fa8c"),
            c("#bd93f9"),
            c("#ff79c6"),
            c("#8be9fd"),
            c("#f8f8f2"),
            c("#6272a4"),
            c("#ff6e6e"),
            c("#69ff94"),
            c("#ffffa5"),
            c("#d6acff"),
            c("#ff92df"),
            c("#a4ffff"),
            c("#ffffff"),
        ],
        title_fg: c("#6272a4"),
        lights: [c("#ff5f57"), c("#febc2e"), c("#28c840")],
        button_fg: c("#6272a4"),
        button_bg: c("#2f3240"),
        bar_bg: None,
        bar_fg: None,
    }
}

fn run(fg: PenColor) -> StyledRun {
    StyledRun {
        col: 0,
        width: 1,
        text: "x".to_string(),
        fg,
        bg: None,
        faint: false,
        bold: false,
        italic: false,
        underline: false,
        strikethrough: false,
        wide: false,
    }
}

#[test]
fn palette_classes_name_theme_dependent_colors() {
    assert_eq!(palette_class(PenColor::DefaultFg).as_deref(), Some("cf"));
    assert_eq!(palette_class(PenColor::DefaultBg).as_deref(), Some("cb"));
    assert_eq!(palette_class(PenColor::Indexed(12)).as_deref(), Some("c12"));
    assert_eq!(palette_class(PenColor::Rgb(Rgb::new(1, 2, 3))), None);
}

#[test]
fn halfway_blend_rounds_halves_up() {
    let c = blend_half(Rgb::new(0, 3, 255), Rgb::new(1, 0, 255));
    assert_eq!(c, Rgb::new(1, 2, 255));
    assert_eq!(blend_half(Rgb::new(10, 20, 30), Rgb::new(20, 40, 60)), Rgb::new(15, 30, 45));
}

#[test]
fn faint_dims_toward_the_background() {
    let theme = dracula();
    let mut r = run(PenColor::DefaultFg);
    assert_eq!(resolved_fg(&r, &theme), Rgb::new(0xf8, 0xf8, 0xf2));
    r.faint = true;
    // (0xf8 + 0x28 + 1) / 2 = 0x90, (0xf8 + 0x2a + 1) / 2 = 0x91, (0xf2 + 0x36 + 1) / 2 = 0x94
    assert_eq!(resolved_fg(&r, &theme), Rgb::new(0x90, 0x91, 0x94));
}

#[test]
fn hex_mode_attrs_inline_the_color() {
    let theme = dracula();
    let mut r = run(PenColor::Indexed(1));
    r.bold = true;
    r.italic = true;
    assert_eq!(text_attrs(&r, &FillMode::Hex(&theme)), " fill=\"#ff5555\" class=\"b i\"");
    assert_eq!(line_attrs(&r, &FillMode::Hex(&theme)), "stroke=\"#ff5555\"");
}

#[test]
fn class_mode_attrs_name_the_palette() {
    let mut r = run(PenColor::Indexed(3));
    r.bold = true;
    r.faint = true;
    assert_eq!(
        text_attrs(&r, &FillMode::Class),
        " class=\"c3 b\" fill-opacity=\"0.5\""
    );
    assert_eq!(
        line_attrs(&r, &FillMode::Class),
        "class=\"c3\" stroke-opacity=\"0.5\""
    );
    let truecolor = run(PenColor::Rgb(Rgb::new(0x12, 0x34, 0x56)));
    assert_eq!(text_attrs(&truecolor, &FillMode::Class), " fill=\"#123456\"");
    assert_eq!(line_attrs(&truecolor, &FillMode::Class), "stroke=\"#123456\"");
}

#[test]
fn segments_skip_spaces_and_keep_offsets() {
    let segs = space_free_segments("  ab  c d ");
    assert_eq!(
        segs,
        vec![(2, "ab".to_string()), (6, "c".to_string()), (8, "d".to_string())]
    );
    assert!(space_free_segments("   ").is_empty());
    assert_eq!(space_free_segments("é ü"), vec![(0, "é".to_string()), (2, "ü".to_string())]);
}

#[test]
fn style_defaults_match_the_cli() {
    assert_eq!(CursorStyle::default(), CursorStyle::Block);
    assert_eq!(ChromeStyle::default(), ChromeStyle::Macos);
}

#[test]
fn titles_follow_the_detection_order() {
    let osc = vec!["first".to_string(), "~/Code/blog".to_string()];
    assert_eq!(detect_title(Some("mine"), Some("rec"), &osc, Some("cmd")).as_deref(), Some("mine"));
    assert_eq!(detect_title(None, Some("rec"), &osc, Some("cmd")).as_deref(), Some("rec"));
    assert_eq!(detect_title(None, None, &osc, Some("cmd")).as_deref(), Some("~/Code/blog"));
    assert_eq!(detect_title(None, None, &Vec::new(), Some("cmd")).as_deref(), Some("cmd"));
    assert_eq!(detect_title(None, None, &Vec::new(), None), None);

    assert_eq!(shown_title("~/Code/blog", true, None), "\u{1F4C1} ~/Code/blog");
    assert_eq!(shown_title("/tmp", true, Some("*")), "* /tmp");
    assert_eq!(shown_title("/tmp", true, Some("")), "/tmp");
    assert_eq!(shown_title("/tmp", false, None), "/tmp");
    assert_eq!(shown_title("htop", true, None), "htop");
}
