use terminal_svg::cast::EventData;
use terminal_svg::edit::{event_text, redact, set_event_text, EditError};

fn out(data: &str) -> EventData {
    EventData::Output(data.into())
}

fn input(data: &str) -> EventData {
    EventData::Other { code: "i".into(), data: data.into() }
}

fn output_text(e: &EventData) -> &str {
    match e {
        EventData::Output(t) => t,
        other => panic!("expected output, got {other:?}"),
    }
}

#[test]
fn redacts_across_event_boundaries() {
    let mut events = vec![out("token: ghp_ab"), out("cd1234 done")];
    let (output, typed) = redact(&mut events, &vec![r"ghp_\w+".to_string()]).unwrap();
    assert_eq!(output + typed, 1);
    assert_eq!(output_text(&events[0]), "token: ******");
    assert_eq!(output_text(&events[1]), "****** done");
}

#[test]
fn redacts_keystroke_split_input_events() {
    let mut events = vec![
        input("h"),
        input("u"),
        input("n"),
        input("t"),
        input("e"),
        input("r"),
        input("2"),
        out("ok"),
    ];
    let (output, typed) = redact(&mut events, &vec!["hunter2".to_string()]).unwrap();
    assert_eq!(output + typed, 1);
    for e in &events[..7] {
        let EventData::Other { data, .. } = e else {
            panic!()
        };
        assert_eq!(data, "*");
    }
    assert_eq!(output_text(&events[7]), "ok");
}

#[test]
fn redaction_preserves_multibyte_layout() {
    let mut events = vec![out("pw: héllo🔑 end")];
    redact(&mut events, &vec!["héllo🔑".to_string()]).unwrap();
    // Six characters masked as six asterisks.
    assert_eq!(output_text(&events[0]), "pw: ****** end");
}

#[test]
fn overlapping_patterns_mask_once() {
    let mut events = vec![out("abcdef")];
    let (output, typed) =
        redact(&mut events, &vec!["abcd".to_string(), "cdef".to_string()]).unwrap();
    assert_eq!(output + typed, 2);
    assert_eq!(output_text(&events[0]), "******");
}

#[test]
fn invalid_pattern_errors() {
    let mut events = vec![out("x")];
    let r = redact(&mut events, &vec!["(".to_string()]);
    assert!(r.is_err());
}

#[test]
fn the_first_invalid_pattern_is_reported_and_nothing_changes() {
    let mut events = vec![out("secret")];
    let r = redact(&mut events, &vec!["secret".to_string(), "[".to_string(), "(".to_string()]);
    match r {
        Err(EditError::InvalidPattern { pattern, reason }) => {
            assert_eq!(pattern, "[");
            assert!(!reason.is_empty());
        }
        other => panic!("expected an invalid pattern, got {other:?}"),
    }
    assert_eq!(output_text(&events[0]), "secret");
}

#[test]
fn streams_are_matched_separately() {
    // "ab" split between an output and an input event is in neither stream.
    let mut events = vec![out("a"), input("b"), EventData::Resize { cols: 3, rows: 4 }];
    let counts = redact(&mut events, &vec!["ab".to_string()]).unwrap();
    assert_eq!(counts, (0, 0));
    assert_eq!(output_text(&events[0]), "a");
    assert_eq!(events[2], EventData::Resize { cols: 3, rows: 4 });
}

#[test]
fn markers_and_empty_matches_are_left_alone() {
    let mut events = vec![
        EventData::Other { code: "m".into(), data: "key".into() },
        out("key"),
    ];
    let (output, _) = redact(&mut events, &vec!["k?".to_string()]).unwrap();
    // "k" matches; the empty matches at the other positions mask nothing.
    assert!(output >= 1);
    assert_eq!(output_text(&events[1]), "*ey");
    assert_eq!(
        events[0],
        EventData::Other { code: "m".into(), data: "key".into() }
    );
}

#[test]
fn event_text_reads_and_writes_the_payload() {
    let mut e = input("abc");
    assert_eq!(event_text(&e), "abc");
    set_event_text(&mut e, "xyz".to_string());
    assert_eq!(e, input("xyz"));
}
