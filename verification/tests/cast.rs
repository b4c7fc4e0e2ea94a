use terminal_svg::cast::{
    full_palette, is_cast_extension, looks_like_cast, palette_text, parse_cast_theme, CastError, EventData,
};
use terminal_svg::theme::Rgb;

#[test]
fn wire_pairs_build_events() {
    assert_eq!(
        EventData::from_wire("o".into(), "hi".into()).unwrap(),
        EventData::Output("hi".into())
    );
    assert_eq!(
        EventData::from_wire("r".into(), "100x30".into()).unwrap(),
        EventData::Resize { cols: 100, rows: 30 }
    );
    assert_eq!(
        EventData::from_wire("m".into(), "marker".into()).unwrap(),
        EventData::Other { code: "m".into(), data: "marker".into() }
    );
}

#[test]
fn malformed_resize_payloads_are_refused() {
    for bad in ["100", "x30", "100x", "ax30", "100x-3", "1x2x3"] {
        assert_eq!(
            EventData::from_wire("r".into(), bad.into()).unwrap_err(),
            CastError::MalformedResize,
            "{bad}"
        );
    }
}

#[test]
fn events_flatten_back_to_wire_pairs() {
    let e = EventData::Resize { cols: 120, rows: 40 };
    let (code, data) = e.to_wire();
    assert_eq!((code, data.as_str()), ("r", "120x40"));
    let back = EventData::from_wire(code.to_string(), data).unwrap();
    assert_eq!(back, e);
    let o = EventData::Other { code: "i".into(), data: "typed".into() };
    assert_eq!(o.to_wire(), ("i", "typed".to_string()));
}

#[test]
fn cast_theme_palettes_have_8_or_16_colors() {
    let fg = Rgb::new(0xf8, 0xf8, 0xf2);
    let bg = Rgb::new(0x28, 0x2a, 0x36);
    let t = parse_cast_theme(fg, bg, "#000:#f00:#0f0:#ff0:#00f:#f0f:#0ff:#fff").unwrap();
    assert_eq!(t.palette.len(), 8);
    assert_eq!(t.palette[1], Rgb::new(0xff, 0, 0));
    let full = "#000:".repeat(15) + "#000";
    assert_eq!(parse_cast_theme(fg, bg, &full).unwrap().palette.len(), 16);
    assert_eq!(
        parse_cast_theme(fg, bg, "#000:#111").err(),
        Some(CastError::PaletteSize)
    );
    assert_eq!(
        parse_cast_theme(fg, bg, "#000:#11").err(),
        Some(CastError::MalformedPalette)
    );
}

#[test]
fn cast_extension_ignores_ascii_case() {
    assert!(is_cast_extension("cast"));
    assert!(is_cast_extension("CAST"));
    assert!(is_cast_extension("CaSt"));
    assert!(!is_cast_extension("ansi"));
    assert!(!is_cast_extension("casts"));
}

#[test]
fn recordings_are_recognized_by_extension_or_header() {
    assert!(looks_like_cast(Some("cast"), false));
    assert!(looks_like_cast(Some("CAST"), false));
    assert!(!looks_like_cast(Some("ansi"), false));
    assert!(looks_like_cast(Some("json"), true));
    assert!(!looks_like_cast(None, false));
}

#[test]
fn written_palettes_read_back() {
    let palette: Vec<Rgb> = (0u8..8).map(|i| Rgb::new(i * 30, 255 - i, i)).collect();
    let text = palette_text(&palette);
    assert!(text.starts_with("#00ff00:#1efe01:"));
    assert_eq!(text.split(':').count(), 8);
    let theme = parse_cast_theme(Rgb::new(1, 2, 3), Rgb::new(4, 5, 6), &text).unwrap();
    assert_eq!(theme.palette, palette);
    assert_eq!(palette_text(&[Rgb::new(0xab, 0xcd, 0xef)].to_vec()), "#abcdef");
    assert_eq!(palette_text(&Vec::new()), "");
}

#[test]
fn eight_colour_palettes_stand_in_for_the_bright_half() {
    let fg = Rgb::new(9, 9, 9);
    let eight: Vec<Rgb> = (0u8..8).map(|i| Rgb::new(i, 0, 0)).collect();
    let theme = parse_cast_theme(fg, Rgb::new(0, 0, 0), &palette_text(&eight)).unwrap();
    let full = full_palette(&theme);
    assert_eq!(full[3], Rgb::new(3, 0, 0));
    assert_eq!(full[11], Rgb::new(3, 0, 0));
    let sixteen: Vec<Rgb> = (0u8..16).map(|i| Rgb::new(0, i, 0)).collect();
    let theme = parse_cast_theme(fg, Rgb::new(0, 0, 0), &palette_text(&sixteen)).unwrap();
    assert_eq!(full_palette(&theme)[11], Rgb::new(0, 11, 0));
}
