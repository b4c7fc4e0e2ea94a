use std::path::PathBuf;

use terminal_svg::capture::{
    capture, command_title, session_command, session_size, session_title, size_change,
    usable_size, RecordOptions, Source,
};

fn words(ws: &[&str]) -> Vec<String> {
    ws.iter().map(|w| w.to_string()).collect()
}

#[test]
fn commands_title_their_capture() {
    let c = capture(&Source::Command(words(&["ls", "-la", "/tmp"])), b"out".to_vec());
    assert_eq!(c.bytes, b"out");
    assert_eq!(c.title.as_deref(), Some("ls -la /tmp"));
    let f = capture(&Source::File(PathBuf::from("x.ansi")), b"y".to_vec());
    assert_eq!(f.title, None);
    assert!(capture(&Source::Stdin, Vec::new()).title.is_none());
    assert_eq!(command_title(&words(&["htop"])), "htop");
    assert_eq!(command_title(&Vec::new()), "");
}

#[test]
fn sessions_default_to_the_shell_and_the_terminal_size() {
    let bare = RecordOptions { command: Vec::new(), cols: None, rows: Some(30) };
    assert_eq!(session_command(&bare, Some("/bin/zsh".into())), words(&["/bin/zsh"]));
    assert_eq!(session_command(&bare, None), words(&["sh"]));
    assert_eq!(session_size(&bare, Some((120, 40))), (120, 30));
    assert_eq!(session_size(&bare, None), (80, 30));
    assert_eq!(session_title(&bare), None);

    let given = RecordOptions { command: words(&["vim", "x"]), cols: Some(90), rows: None };
    assert_eq!(session_command(&given, Some("/bin/zsh".into())), words(&["vim", "x"]));
    assert_eq!(session_title(&given).as_deref(), Some("vim x"));
    assert_eq!(session_size(&given, Some((100, 50))), (90, 50));
}

#[test]
fn resizes_are_reported_once() {
    assert_eq!(usable_size(0, 24), None);
    assert_eq!(usable_size(80, 24), Some((80, 24)));
    assert_eq!(size_change((80, 24), Some((80, 24))), None);
    assert_eq!(size_change((80, 24), Some((100, 24))), Some((100, 24)));
    assert_eq!(size_change((80, 24), None), None);
}
