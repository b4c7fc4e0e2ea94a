//! Where terminal bytes come from, and the decisions a recording session
//! makes around the I/O.
use vstd::prelude::*;

use crate::text::{push_char, push_str};

verus! {

#[verifier::external_type_specification]
#[verifier::external_body]
pub struct ExPathBuf(std::path::PathBuf);

/// Where the terminal bytes come from.
pub enum Source {
    Stdin,
    File(std::path::PathBuf),
    /// Command + args to spawn in a PTY.
    Command(Vec<String>),
}

/// Captured terminal output.
#[derive(Debug)]
pub struct Capture {
    pub bytes: Vec<u8>,
    /// Title derived from the source (command string), if any.
    pub title: Option<String>,
}

/// The words joined with single spaces.
pub open spec fn join_spaces(words: Seq<Seq<char>>) -> Seq<char>
    decreases words.len(),
{
    if words.len() == 0 {
        seq![]
    } else if words.len() == 1 {
        words[0]
    } else {
        join_spaces(words.drop_last()) + seq![' '] + words.last()
    }
}

pub open spec fn texts(v: Seq<String>) -> Seq<Seq<char>> {
    v.map_values(|s: String| s@)
}

/// The command line as one string: the words joined with spaces.
pub fn command_title(command: &Vec<String>) -> (title: String)
    ensures
        title@ == join_spaces(texts(command@)),
{
    let ghost words = texts(command@);
    let mut title = String::new();
    let mut i: usize = 0;
    while i < command.len()
        invariant
            i <= command@.len(),
            words == texts(command@),
            title@ == join_spaces(words.take(i as int)),
        decreases command@.len() - i,
    {
        proof {
            assert(words.take(i + 1).drop_last() =~= words.take(i as int));
            assert(words.take(i + 1).last() == command@[i as int]@);
        }
        if i > 0 {
            push_char(&mut title, ' ');
        } else {
            assert(words.take(1) =~= seq![command@[0]@]);
        }
        push_str(&mut title, command[i].as_str());
        i += 1;
        assert(title@ =~= join_spaces(words.take(i as int)));
    }
    assert(words.take(i as int) =~= words);
    title
}

/// The capture of `source` once its bytes are read: a command source also
/// titles the capture with its command line.
pub fn capture(source: &Source, bytes: Vec<u8>) -> (c: Capture)
    ensures
        c.bytes@ == bytes@,
        match source {
            Source::Command(command) => (c.title matches Some(t) && t@ == join_spaces(texts(command@))),
            _ => c.title is None,
        },
{
    match source {
        Source::Command(command) => Capture { bytes, title: Some(command_title(command)) },
        _ => Capture { bytes, title: None },
    }
}

/// What a `rec` session records.
pub struct RecordOptions {
    /// Command to record; empty means $SHELL.
    pub command: Vec<String>,
    /// Explicit size; defaults to the invoking terminal's.
    pub cols: Option<u16>,
    pub rows: Option<u16>,
}

fn copy_strings(v: &Vec<String>) -> (c: Vec<String>)
    ensures
        texts(c@) == texts(v@),
{
    let mut c: Vec<String> = Vec::new();
    let mut i: usize = 0;
    while i < v.len()
        invariant
            i <= v@.len(),
            texts(c@) == texts(v@).take(i as int),
        decreases v@.len() - i,
    {
        let ghost before = c@;
        let s = v[i].clone();
        assert(s@ == v@[i as int]@);
        c.push(s);
        assert(c@ == before.push(s));
        assert(texts(before).len() == i);
        assert forall|j: int| 0 <= j <= i implies texts(c@)[j] == texts(v@).take(i + 1)[j] by {
            if j < i {
                assert(texts(c@)[j] == c@[j]@);
                assert(c@[j] == before[j]);
                assert(texts(before)[j] == before[j]@);
            }
        }
        i += 1;
        assert(texts(c@) =~= texts(v@).take(i as int));
    }
    assert(texts(v@).take(i as int) =~= texts(v@));
    c
}

/// The command a session runs: the given one, or the user's shell (`sh`
/// when `$SHELL` is unset).
pub fn session_command(opts: &RecordOptions, shell: Option<String>) -> (cmd: Vec<String>)
    ensures
        opts.command@.len() > 0 ==> texts(cmd@) == texts(opts.command@),
        opts.command@.len() == 0 ==> texts(cmd@) == seq![
            match shell {
                Some(s) => s@,
                None => "sh"@,
            },
        ],
{
    if opts.command.len() > 0 {
        copy_strings(&opts.command)
    } else {
        let program = match shell {
            Some(s) => s,
            None => "sh".to_string(),
        };
        let mut cmd: Vec<String> = Vec::new();
        cmd.push(program);
        assert(texts(cmd@) =~= seq![cmd@[0]@]);
        cmd
    }
}

/// A terminal size worth using: both dimensions positive.
pub fn usable_size(cols: u16, rows: u16) -> (size: Option<(u16, u16)>)
    ensures
        size == if cols > 0 && rows > 0 {
            Some((cols, rows))
        } else {
            None::<(u16, u16)>
        },
{
    if cols > 0 && rows > 0 {
        Some((cols, rows))
    } else {
        None
    }
}

/// The session's grid: the explicit size, else the invoking terminal's,
/// else 80×24.
pub fn session_size(opts: &RecordOptions, terminal: Option<(u16, u16)>) -> (size: (u16, u16))
    ensures
        ({
            let (tc, tr) = match terminal {
                Some(t) => t,
                None => (80u16, 24u16),
            };
            size == (
                match opts.cols {
                    Some(c) => c,
                    None => tc,
                },
                match opts.rows {
                    Some(r) => r,
                    None => tr,
                },
            )
        }),
{
    let (tc, tr) = match terminal {
        Some(t) => t,
        None => (80, 24),
    };
    let cols = match opts.cols {
        Some(c) => c,
        None => tc,
    };
    let rows = match opts.rows {
        Some(r) => r,
        None => tr,
    };
    (cols, rows)
}

/// The recording's title: the command line, when one was given.
pub fn session_title(opts: &RecordOptions) -> (title: Option<String>)
    ensures
        opts.command@.len() > 0 ==> (title matches Some(t) && t@ == join_spaces(texts(opts.command@))),
        opts.command@.len() == 0 ==> title is None,
{
    if opts.command.len() > 0 {
        Some(command_title(&opts.command))
    } else {
        None
    }
}

/// A window resize to apply and record: the newly observed size, when it
/// differs from the current one.
pub fn size_change(current: (u16, u16), observed: Option<(u16, u16)>) -> (change: Option<(u16, u16)>)
    ensures
        change == match observed {
            Some(s) => if s != current {
                Some(s)
            } else {
                None::<(u16, u16)>
            },
            None => None::<(u16, u16)>,
        },
{
    match observed {
        Some(s) => if s.0 != current.0 || s.1 != current.1 {
            Some(s)
        } else {
            None
        },
        None => None,
    }
}

} // verus!
