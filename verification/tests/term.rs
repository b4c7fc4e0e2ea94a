use terminal_svg::term::screen::{PenColor, Screen, StyledRun};
use terminal_svg::term::{interpret, normalize_newlines, osc_titles, Interpreter};
use terminal_svg::theme::Rgb;

fn screen(input: &str) -> Screen {
    interpret(input.as_bytes(), 80, 24)
}

#[test]
fn plain_text_is_one_run() {
    let s = screen("hello");
    assert_eq!(s.rows.len(), 1);
    assert_eq!(s.rows[0].len(), 1);
    assert_eq!(s.rows[0][0].text, "hello");
    assert_eq!(s.rows[0][0].col, 0);
}

#[test]
fn sgr_color_splits_runs() {
    let s = screen("a\x1b[31mred\x1b[0mb");
    let row = &s.rows[0];
    assert_eq!(row.len(), 3);
    assert_eq!(row[1].text, "red");
    assert_eq!(row[1].fg, PenColor::Indexed(1));
    assert_eq!(row[2].col, 4);
}

#[test]
fn color_resolution_stays_symbolic_where_it_matters() {
    // Palette colors stay symbolic; the 256 cube, grayscale ramp, and
    // truecolor are theme-independent and collapse to RGB up front.
    let s = screen("\x1b[38;5;9ma\x1b[38;5;196mb\x1b[38;5;232mc\x1b[38;2;1;2;3md");
    let row = &s.rows[0];
    assert_eq!(row[0].fg, PenColor::Indexed(9));
    assert_eq!(row[1].fg, PenColor::Rgb(Rgb::new(255, 0, 0)));
    assert_eq!(row[2].fg, PenColor::Rgb(Rgb::new(8, 8, 8)));
    assert_eq!(row[3].fg, PenColor::Rgb(Rgb::new(1, 2, 3)));
}

#[test]
fn faint_is_a_flag_not_a_blend() {
    let s = screen("\x1b[2mdim\x1b[0m bright");
    let row = &s.rows[0];
    assert!(row[0].faint);
    assert_eq!(row[0].fg, PenColor::DefaultFg);
    assert!(!row[1].faint);
}

#[test]
fn carriage_return_overwrites() {
    let s = screen("00%\r50%\r99%");
    assert_eq!(s.rows[0][0].text, "99%");
    assert_eq!(s.rows.len(), 1);
}

#[test]
fn inverse_swaps_colors() {
    let s = screen("\x1b[7mX\x1b[0m");
    let run = &s.rows[0][0];
    assert_eq!(run.fg, PenColor::DefaultBg);
    assert_eq!(run.bg, Some(PenColor::DefaultFg));
}

#[test]
fn wide_chars_get_own_runs() {
    let s = screen("a漢b");
    let row = &s.rows[0];
    assert_eq!(row.len(), 3);
    assert_eq!(row[1].text, "漢");
    assert!(row[1].wide);
    assert_eq!(row[1].width, 2);
    assert_eq!(row[2].col, 3);
}

#[test]
fn trailing_blank_lines_trimmed() {
    let s = screen("one\n\n\n");
    assert_eq!(s.rows.len(), 1);
}

#[test]
fn cursor_up_redraw_resolves() {
    // draw two lines, move up, overwrite the first
    let s = screen("aaa\nbbb\x1b[1A\rccc\x1b[1B\n");
    assert_eq!(s.rows[0][0].text, "ccc");
    assert_eq!(s.rows[1][0].text, "bbb");
}

#[test]
fn osc_title_detection() {
    // OSC 2 with BEL terminator.
    assert_eq!(osc_titles("\x1b]2;hello\x07rest"), ["hello"]);
    // OSC 0 with ST terminator.
    assert_eq!(osc_titles("\x1b]0;world\x1b\\"), ["world"]);
    // Titles arrive in order; other OSC codes are ignored.
    assert_eq!(
        osc_titles("\x1b]2;first\x07\x1b]7;file://x\x1b\\\x1b]2;second\x07"),
        ["first", "second"]
    );
    // Empty titles and unterminated sequences don't count.
    assert!(osc_titles("\x1b]2;\x07").is_empty());
    assert!(osc_titles("\x1b]2;dangling").is_empty());
    assert!(osc_titles("plain text").is_empty());
}

#[test]
fn newline_normalization_adds_carriage_returns_once() {
    assert_eq!(normalize_newlines("a\nb\r\nc"), "a\r\nb\r\nc");
    let once = normalize_newlines("x\n\ny");
    assert_eq!(once, "x\r\n\r\ny");
    assert_eq!(normalize_newlines(&once), once);
}

#[test]
fn bare_newlines_start_new_rows_at_column_zero() {
    // Without the line-discipline emulation "b" would start at column 1.
    let s = screen("a\nb");
    assert_eq!(s.rows.len(), 2);
    assert_eq!(s.rows[1][0].col, 0);
    assert_eq!(s.rows[1][0].text, "b");
}

#[test]
fn invalid_utf8_decodes_lossily() {
    let s = interpret(b"ok\xffok", 80, 24);
    assert_eq!(s.rows[0][0].text, "ok\u{fffd}ok");
}

#[test]
fn interpret_keeps_the_column_count() {
    let s = interpret(b"x", 40, 10);
    assert_eq!(s.cols, 40);
}

fn run(text: &str, col: usize) -> StyledRun {
    StyledRun {
        col,
        width: text.chars().count(),
        text: text.to_string(),
        fg: PenColor::DefaultFg,
        bg: None,
        faint: false,
        bold: false,
        italic: false,
        underline: false,
        strikethrough: false,
        wide: false,
    }
}

#[test]
fn blank_runs_are_spaces_without_decoration() {
    assert!(run("   ", 0).is_blank());
    assert!(!run(" a ", 0).is_blank());
    let mut underlined = run("  ", 0);
    underlined.underline = true;
    assert!(!underlined.is_blank());
    let mut shaded = run("  ", 0);
    shaded.bg = Some(PenColor::Indexed(4));
    assert!(!shaded.is_blank());
}

#[test]
fn uncovered_chars_get_their_own_runs() {
    let mut s = Screen {
        cols: 80,
        rows: vec![vec![run("ab😀cd", 2)]],
    };
    s.split_uncovered(|c: char| c.is_ascii());
    let row = &s.rows[0];
    assert_eq!(row.len(), 3);
    assert_eq!((row[0].text.as_str(), row[0].col), ("ab", 2));
    assert_eq!((row[1].text.as_str(), row[1].col), ("😀", 4));
    assert_eq!((row[2].text.as_str(), row[2].col), ("cd", 5));
}

#[test]
fn interpreter_tracks_the_visible_screen_and_cursor() {
    let mut vt = Interpreter::new(20, 5);
    assert_eq!(vt.cursor(), Some((0, 0)));
    vt.feed("ab");
    assert_eq!(vt.cursor(), Some((2, 0)));
    let s = vt.snapshot();
    assert_eq!(s.cols, 20);
    // The canvas keeps all its rows.
    assert_eq!(s.rows.len(), 5);
    assert_eq!(s.rows[0][0].text, "ab");
    vt.feed("\x1b[?25l");
    assert_eq!(vt.cursor(), None);
    vt.resize(30, 8);
    let s = vt.snapshot();
    assert_eq!(s.cols, 30);
    assert_eq!(s.rows.len(), 8);
}

#[test]
fn bold_keeps_the_palette_colour() {
    let s = screen("\x1b[1;31mB\x1b[0;31mN");
    let row = &s.rows[0];
    assert_eq!(row.len(), 2);
    assert!(row[0].bold && !row[1].bold);
    assert_eq!(row[0].fg, PenColor::Indexed(1));
    assert_eq!(row[1].fg, PenColor::Indexed(1));
}

#[test]
fn titles_are_clean_and_only_grow() {
    let d = "\x1b]0;first\x07text\x1b]2;";
    let before = osc_titles(d);
    assert_eq!(before, vec!["first".to_string()]);
    let after = osc_titles(&format!("{d}second\x1b\\"));
    assert_eq!(after, vec!["first".to_string(), "second".to_string()]);
    assert!(osc_titles("\x1b]0;\x07plain \x1b[31mred").is_empty());
    assert!(osc_titles("no escapes here").is_empty());
}

#[test]
fn splitting_keeps_row_text_and_columns() {
    let mut s = Screen { cols: 80, rows: vec![vec![run("ab😀cd", 2), run("x😀", 9)]] };
    s.split_uncovered(|c: char| c.is_ascii());
    let row = &s.rows[0];
    let text: String = row.iter().map(|r| r.text.as_str()).collect();
    assert_eq!(text, "ab😀cdx😀");
    let width: usize = row.iter().map(|r| r.width).sum();
    assert_eq!(width, 7);
    assert_eq!((row[3].text.as_str(), row[3].col), ("x", 9));
    assert_eq!((row[4].text.as_str(), row[4].col), ("😀", 10));
}

#[test]
fn interpreted_rows_are_ordered_and_end_with_content() {
    let s = screen("one\n\n\n");
    assert_eq!(s.rows.len(), 1);
    let s = screen("a \x1b[41m  \x1b[0m b\n\x1b[4mu\x1b[0m");
    for row in &s.rows {
        for pair in row.windows(2) {
            assert!(pair[0].col + pair[0].width <= pair[1].col);
        }
        for r in row {
            assert!(!r.text.is_empty() && !r.is_blank());
        }
    }
    assert!(!s.rows.last().unwrap().is_empty());
}

#[test]
fn runs_are_sized_by_their_characters_and_neighbours_differ() {
    let s = screen("ab\x1b[1mcd\x1b[0m界e \x1b[31mf");
    for row in &s.rows {
        for r in row {
            if r.wide {
                assert_eq!((r.text.chars().count(), r.width), (1, 2));
            } else {
                assert_eq!(r.width, r.text.chars().count());
            }
        }
        for pair in row.windows(2) {
            let (a, b) = (&pair[0], &pair[1]);
            if !a.wide && !b.wide && a.col + a.width == b.col {
                let same = (a.fg, a.bg, a.faint, a.bold, a.italic, a.underline, a.strikethrough)
                    == (b.fg, b.bg, b.faint, b.bold, b.italic, b.underline, b.strikethrough);
                assert!(!same);
            }
        }
    }
    let row = &s.rows[0];
    assert_eq!(row[2].text, "界");
    assert!(row[2].wide);
}

#[test]
fn titles_follow_their_introducers_in_order() {
    let d = "x\x1b]2;one\x07y\x1b]9;no\x07\x1b]0;two\x1b\\";
    assert_eq!(osc_titles(d), vec!["one".to_string(), "two".to_string()]);
    let first = d.find("one").unwrap();
    let second = d.find("two").unwrap();
    assert!(first < second);
    assert_eq!(&d[first - 4..first], "\x1b]2;");
    assert_eq!(&d[second - 4..second], "\x1b]0;");
}
