use terminal_svg::anim::{canvas_size, same_frame, visible_rows};
use terminal_svg::cast::EventData;
use terminal_svg::term::interpret;
use terminal_svg::term::screen::Screen;

#[test]
fn resizes_grow_the_canvas() {
    let events = vec![
        EventData::Output("a".into()),
        EventData::Resize { cols: 30, rows: 8 },
        EventData::Resize { cols: 10, rows: 40 },
    ];
    assert_eq!(canvas_size(20, 5, &events), (30, 40));
    assert_eq!(canvas_size(20, 5, &Vec::new()), (20, 5));
}

#[test]
fn trailing_empty_rows_are_invisible() {
    let mut s = interpret(b"a\nb", 10, 5);
    s.rows.push(Vec::new());
    s.rows.push(Vec::new());
    assert_eq!(visible_rows(&s), 2);
    let empty = Screen { cols: 3, rows: vec![Vec::new()] };
    assert_eq!(visible_rows(&empty), 0);
}

#[test]
fn frames_with_the_same_visible_content_and_cursor_match() {
    let a = interpret(b"x", 10, 5);
    let mut b = interpret(b"x", 20, 5);
    b.rows.push(Vec::new());
    assert!(same_frame(&a, Some((1, 0)), &b, Some((1, 0))));
    assert!(!same_frame(&a, Some((1, 0)), &b, Some((2, 0))));
    assert!(!same_frame(&a, None, &b, Some((1, 0))));
    let c = interpret(b"y", 10, 5);
    assert!(!same_frame(&a, None, &c, None));
}
