//! Asciicast recordings: the event payloads an event line stores and the
//! palette a v3 header carries.
use vstd::prelude::*;

use crate::text::{
    decimal, parse_decimal_round_trip, parse_usize, parse_usize_spec, push_char, push_decimal,
    push_str, string_from_chars, to_chars,
};
use crate::theme::{hex_parse_round_trip, hex_string, parse_color, ColorError, Rgb};

verus! {

/// Why a recording was rejected.
#[derive(Debug, Clone, Copy, PartialEq, Eq, Structural)]
pub enum CastError {
    /// An "r" event whose payload is not `COLSxROWS`.
    MalformedResize,
    /// A v3 theme palette entry that is not a colour.
    MalformedPalette,
    /// A v3 theme palette with neither 8 nor 16 colours.
    PaletteSize,
}

#[derive(Debug, Clone, PartialEq)]
pub enum EventData {
    /// "o" — bytes written to the terminal.
    Output(String),
    /// "r" — terminal resized ("COLSxROWS" payload).
    Resize { cols: usize, rows: usize },
    /// Any other code ("i" input, "m" markers, "x" exit, future codes):
    /// nothing renderable, but kept so `edit` and `write` are lossless.
    Other { code: String, data: String },
}

/// The value of an [`EventData`].
pub ghost enum EventView {
    Output(Seq<char>),
    Resize { cols: usize, rows: usize },
    Other { code: Seq<char>, data: Seq<char> },
}

impl View for EventData {
    type V = EventView;

    open spec fn view(&self) -> EventView {
        match self {
            EventData::Output(s) => EventView::Output(s@),
            EventData::Resize { cols, rows } => EventView::Resize { cols: *cols, rows: *rows },
            EventData::Other { code, data } => EventView::Other { code: code@, data: data@ },
        }
    }
}

/// The text before and after the first `x`.
pub open spec fn split_at_x(s: Seq<char>) -> Option<(Seq<char>, Seq<char>)> {
    if exists|i: int| 0 <= i < s.len() && s[i] == 'x' {
        let i = choose|i: int|
            0 <= i < s.len() && s[i] == 'x' && forall|j: int| 0 <= j < i ==> s[j] != 'x';
        Some((s.take(i), s.skip(i + 1)))
    } else {
        None
    }
}

/// The event an event line's `(code, data)` pair denotes.
pub open spec fn from_wire_spec(code: Seq<char>, data: Seq<char>) -> Result<EventView, CastError> {
    if code == seq!['o'] {
        Ok(EventView::Output(data))
    } else if code == seq!['r'] {
        match split_at_x(data) {
            Some((c, r)) => match (parse_usize_spec(c), parse_usize_spec(r)) {
                (Some(cols), Some(rows)) => Ok(EventView::Resize { cols, rows }),
                _ => Err(CastError::MalformedResize),
            },
            None => Err(CastError::MalformedResize),
        }
    } else {
        Ok(EventView::Other { code, data })
    }
}

/// The `(code, data)` pair an event line stores for `e`.
pub open spec fn to_wire_spec(e: EventView) -> (Seq<char>, Seq<char>) {
    match e {
        EventView::Output(d) => (seq!['o'], d),
        EventView::Resize { cols, rows } => (
            seq!['r'],
            decimal(cols as nat) + seq!['x'] + decimal(rows as nat),
        ),
        EventView::Other { code, data } => (code, data),
    }
}

pub open spec fn result_view(r: Result<EventData, CastError>) -> Result<EventView, CastError> {
    match r {
        Ok(e) => Ok(e@),
        Err(e) => Err(e),
    }
}

fn is_single(s: &str, c: char) -> (r: bool)
    ensures
        r == (s@ == seq![c]),
{
    let v = to_chars(s);
    let r = v.len() == 1 && v[0] == c;
    proof {
        if v@.len() == 1 && v@[0] == c {
            assert(v@ =~= seq![c]);
        }
    }
    r
}

/// Index of the first `x` in `v`, if any.
fn find_x(v: &Vec<char>) -> (r: Option<usize>)
    ensures
        r matches Some(i) ==> i < v@.len() && v@[i as int] == 'x' && forall|j: int|
            0 <= j < i ==> v@[j] != 'x',
        r is None ==> forall|j: int| 0 <= j < v@.len() ==> v@[j] != 'x',
{
    let mut i: usize = 0;
    while i < v.len()
        invariant
            i <= v@.len(),
            forall|j: int| 0 <= j < i ==> v@[j] != 'x',
        decreases v@.len() - i,
    {
        if v[i] == 'x' {
            return Some(i);
        }
        i += 1;
    }
    None
}

impl EventData {
    /// Build from the `(code, data)` pair an event line stores: "o" is
    /// output, "r" a resize whose payload must be `COLSxROWS`, anything
    /// else is kept verbatim.
    pub fn from_wire(code: String, data: String) -> (r: Result<EventData, CastError>)
        ensures
            result_view(r) == from_wire_spec(code@, data@),
    {
        if is_single(code.as_str(), 'o') {
            return Ok(EventData::Output(data));
        }
        if !is_single(code.as_str(), 'r') {
            return Ok(EventData::Other { code, data });
        }
        let v = to_chars(data.as_str());
        match find_x(&v) {
            None => {
                assert(!exists|i: int| 0 <= i < v@.len() && v@[i] == 'x');
                Err(CastError::MalformedResize)
            },
            Some(i) => {
                let ghost s = data@;
                assert(split_at_x(s) == Some((s.take(i as int), s.skip(i + 1)))) by {
                    assert(0 <= i < s.len() && s[i as int] == 'x');
                    let k = choose|k: int|
                        0 <= k < s.len() && s[k] == 'x' && forall|j: int| 0 <= j < k ==> s[j] != 'x';
                    assert(k == i);
                }
                let cols = parse_usize(&v.as_slice()[0..i]);
                let rows = parse_usize(&v.as_slice()[i + 1..v.len()]);
                assert(v@.subrange(0, i as int) =~= s.take(i as int));
                assert(v@.subrange(i + 1, v@.len() as int) =~= s.skip(i + 1));
                match (cols, rows) {
                    (Some(cols), Some(rows)) => Ok(EventData::Resize { cols, rows }),
                    _ => Err(CastError::MalformedResize),
                }
            },
        }
    }

    /// Flatten back to the `(code, data)` pair an event line stores.
    pub fn to_wire(&self) -> (r: (&str, String))
        ensures
            (r.0@, r.1@) == to_wire_spec(self@),
    {
        match self {
            EventData::Output(data) => {
                proof {
                    reveal_strlit("o");
                }
                ("o", data.clone())
            },
            EventData::Resize { cols, rows } => {
                let mut s = String::new();
                push_decimal(&mut s, *cols);
                crate::text::push_char(&mut s, 'x');
                push_decimal(&mut s, *rows);
                proof {
                    reveal_strlit("r");
                }
                assert(s@ =~= decimal(*cols as nat) + seq!['x'] + decimal(*rows as nat));
                ("r", s)
            },
            EventData::Other { code, data } => (code.as_str(), data.clone()),
        }
    }
}

proof fn lemma_decimal_has_no_x(n: nat)
    ensures
        forall|j: int| 0 <= j < decimal(n).len() ==> decimal(n)[j] != 'x',
    decreases n,
{
    if n >= 10 {
        lemma_decimal_has_no_x(n / 10);
        assert forall|j: int| 0 <= j < decimal(n).len() implies decimal(n)[j] != 'x' by {
            if j < decimal(n).len() - 1 {
                assert(decimal(n)[j] == decimal(n / 10)[j]);
            }
        }
    }
}

/// An event written to its `(code, data)` pair reads back as the same
/// event — except an "other" event carrying one of the codes that have
/// their own meaning ("o", "r").
pub proof fn wire_round_trip(e: EventView)
    requires
        e matches EventView::Other { code, .. } ==> code != seq!['o'] && code != seq!['r'],
    ensures
        from_wire_spec(to_wire_spec(e).0, to_wire_spec(e).1) == Ok::<EventView, CastError>(e),
{
    match e {
        EventView::Resize { cols, rows } => {
            let c = decimal(cols as nat);
            let r = decimal(rows as nat);
            let s = c + seq!['x'] + r;
            lemma_decimal_has_no_x(cols as nat);
            assert(s[c.len() as int] == 'x');
            let k = choose|k: int|
                0 <= k < s.len() && s[k] == 'x' && forall|j: int| 0 <= j < k ==> s[j] != 'x';
            if k < c.len() {
                assert(s[k] == c[k]);
            }
            assert(k == c.len());
            assert(s.take(k) =~= c);
            assert(s.skip(k + 1) =~= r);
            parse_decimal_round_trip(cols);
            parse_decimal_round_trip(rows);
            assert(split_at_x(s) == Some((c, r)));
            assert(seq!['r'][0] != seq!['o'][0]);
            assert(to_wire_spec(e).0 == seq!['r']);
            assert(to_wire_spec(e).1 == s);
        },
        _ => {},
    }
}


/// The palette a v3 recording carries: the terminal's colors at record time.
#[derive(Debug, Clone)]
pub struct CastTheme {
    pub fg: Rgb,
    pub bg: Rgb,
    /// 8 or 16 entries (an 8-entry palette has no bright variants).
    pub palette: Vec<Rgb>,
}

/// Pieces of `s` between separators, with `cur` the piece collected so far
/// (as `str::split`: always at least one piece, possibly empty ones).
pub open spec fn split_from(s: Seq<char>, sep: char, cur: Seq<char>) -> Seq<Seq<char>>
    decreases s.len(),
{
    if s.len() == 0 {
        seq![cur]
    } else if s[0] == sep {
        seq![cur] + split_from(s.drop_first(), sep, seq![])
    } else {
        split_from(s.drop_first(), sep, cur.push(s[0]))
    }
}

pub open spec fn split_on(s: Seq<char>, sep: char) -> Seq<Seq<char>> {
    split_from(s, sep, seq![])
}

/// Splits `s` at every `sep`.
pub fn split_chars(s: &str, sep: char) -> (pieces: Vec<String>)
    ensures
        pieces@.map_values(|p: String| p@) == split_on(s@, sep),
{
    let v = to_chars(s);
    let mut pieces: Vec<String> = Vec::new();
    let mut cur: Vec<char> = Vec::new();
    let mut i: usize = 0;
    assert(v@.skip(0) =~= v@);
    while i < v.len()
        invariant
            i <= v@.len(),
            v@ == s@,
            pieces@.map_values(|p: String| p@) + split_from(v@.skip(i as int), sep, cur@)
                == split_on(s@, sep),
        decreases v@.len() - i,
    {
        let ghost rest = v@.skip(i as int);
        assert(rest[0] == v@[i as int]);
        assert(rest.drop_first() =~= v@.skip(i + 1));
        if v[i] == sep {
            let ghost before = pieces@.map_values(|p: String| p@);
            let piece = string_from_chars(cur.as_slice());
            pieces.push(piece);
            assert(pieces@.map_values(|p: String| p@) =~= before + seq![cur@]);
            cur = Vec::new();
            assert(cur@ =~= Seq::<char>::empty());
        } else {
            cur.push(v[i]);
        }
        i += 1;
    }
    let ghost before = pieces@.map_values(|p: String| p@);
    assert(v@.skip(i as int) =~= Seq::<char>::empty());
    let piece = string_from_chars(cur.as_slice());
    pieces.push(piece);
    assert(pieces@.map_values(|p: String| p@) =~= before + seq![cur@]);
    pieces
}

/// The theme a v3 header's `fg`, `bg` and colon-separated palette give.
pub open spec fn cast_theme_spec(palette: Seq<char>) -> Result<Seq<Rgb>, CastError> {
    let pieces = split_on(palette, ':');
    if exists|k: int| 0 <= k < pieces.len() && parse_color(pieces[k]) is Err {
        Err(CastError::MalformedPalette)
    } else if pieces.len() != 8 && pieces.len() != 16 {
        Err(CastError::PaletteSize)
    } else {
        Ok(pieces.map_values(|p: Seq<char>| parse_color(p)->Ok_0))
    }
}

/// Builds the recording's theme: every palette entry must be a colour, and
/// there must be 8 or 16 of them.
pub fn parse_cast_theme(fg: Rgb, bg: Rgb, palette: &str) -> (r: Result<CastTheme, CastError>)
    ensures
        match (r, cast_theme_spec(palette@)) {
            (Ok(t), Ok(colors)) => t.fg == fg && t.bg == bg && t.palette@ == colors,
            (Err(e), Err(f)) => e == f,
            _ => false,
        },
{
    let pieces = split_chars(palette, ':');
    let ghost ps = split_on(palette@, ':');
    let mut colors: Vec<Rgb> = Vec::new();
    let mut k: usize = 0;
    while k < pieces.len()
        invariant
            k <= pieces@.len(),
            pieces@.map_values(|p: String| p@) == ps,
            ps == split_on(palette@, ':'),
            colors@.len() == k,
            forall|j: int| 0 <= j < k ==> parse_color(#[trigger] ps[j]) == Ok::<Rgb, ColorError>(colors@[j]),
        decreases pieces@.len() - k,
    {
        assert(ps[k as int] == pieces@[k as int]@);
        match Rgb::parse(pieces[k].as_str()) {
            Ok(c) => colors.push(c),
            Err(_) => {
                return Err(CastError::MalformedPalette);
            },
        }
        k += 1;
    }
    assert(!exists|j: int| 0 <= j < ps.len() && parse_color(ps[j]) is Err) by {
        assert forall|j: int| 0 <= j < ps.len() implies parse_color(ps[j]) is Ok by {
            assert(parse_color(ps[j]) == Ok::<Rgb, ColorError>(colors@[j]));
        }
    }
    if colors.len() != 8 && colors.len() != 16 {
        return Err(CastError::PaletteSize);
    }
    assert(colors@ =~= ps.map_values(|p: Seq<char>| parse_color(p)->Ok_0));
    Ok(CastTheme { fg, bg, palette: colors })
}

/// Entry `i` of the sixteen-colour palette a recording's theme gives.
pub open spec fn palette_entry(fg: Rgb, palette: Seq<Rgb>, i: int) -> Rgb {
    if i < palette.len() {
        palette[i]
    } else if i % 8 < palette.len() {
        palette[i % 8]
    } else {
        fg
    }
}

fn entry(t: &CastTheme, i: usize) -> (c: Rgb)
    ensures
        c == palette_entry(t.fg, t.palette@, i as int),
{
    if i < t.palette.len() {
        t.palette[i]
    } else if i % 8 < t.palette.len() {
        t.palette[i % 8]
    } else {
        t.fg
    }
}

/// The sixteen palette entries of a recording's theme: its own colours,
/// the normal eight standing in for the bright half of an 8-colour palette
/// (and the foreground for any entry still missing).
pub fn full_palette(t: &CastTheme) -> (p: [Rgb; 16])
    ensures
        forall|i: int| 0 <= i < 16 ==> #[trigger] p@[i] == palette_entry(t.fg, t.palette@, i),
{
    [
        entry(t, 0),
        entry(t, 1),
        entry(t, 2),
        entry(t, 3),
        entry(t, 4),
        entry(t, 5),
        entry(t, 6),
        entry(t, 7),
        entry(t, 8),
        entry(t, 9),
        entry(t, 10),
        entry(t, 11),
        entry(t, 12),
        entry(t, 13),
        entry(t, 14),
        entry(t, 15),
    ]
}

/// The pieces with `sep` between each two of them.
pub open spec fn join_with(pieces: Seq<Seq<char>>, sep: char) -> Seq<char>
    decreases pieces.len(),
{
    if pieces.len() == 0 {
        seq![]
    } else if pieces.len() == 1 {
        pieces[0]
    } else {
        pieces[0] + seq![sep] + join_with(pieces.drop_first(), sep)
    }
}

/// Each colour as `#rrggbb`.
pub open spec fn palette_hexes(palette: Seq<Rgb>) -> Seq<Seq<char>> {
    palette.map_values(|c: Rgb| hex_string(c))
}

proof fn lemma_join_push(pieces: Seq<Seq<char>>, sep: char, x: Seq<char>)
    requires
        pieces.len() >= 1,
    ensures
        join_with(pieces.push(x), sep) == join_with(pieces, sep) + seq![sep] + x,
    decreases pieces.len(),
{
    assert(pieces.push(x)[0] == pieces[0]);
    if pieces.len() == 1 {
        assert(pieces.push(x).drop_first() =~= seq![x]);
        assert(join_with(seq![x], sep) == x);
    } else {
        lemma_join_push(pieces.drop_first(), sep, x);
        assert(pieces.push(x).drop_first() =~= pieces.drop_first().push(x));
        assert(pieces[0] + seq![sep] + (join_with(pieces.drop_first(), sep) + seq![sep] + x) =~= pieces[0]
            + seq![sep] + join_with(pieces.drop_first(), sep) + seq![sep] + x);
    }
}

/// The palette as a v3 header writes it: the colours as `#rrggbb`,
/// separated by colons.
pub fn palette_text(palette: &Vec<Rgb>) -> (s: String)
    ensures
        s@ == join_with(palette_hexes(palette@), ':'),
{
    let mut s = String::new();
    let mut i: usize = 0;
    while i < palette.len()
        invariant
            i <= palette@.len(),
            s@ == join_with(palette_hexes(palette@.take(i as int)), ':'),
        decreases palette@.len() - i,
    {
        let ghost before = palette_hexes(palette@.take(i as int));
        let hex = palette[i].hex();
        assert(palette_hexes(palette@.take(i + 1)) =~= before.push(hex_string(palette@[i as int])));
        if i > 0 {
            proof {
                lemma_join_push(before, ':', hex@);
            }
            push_char(&mut s, ':');
            push_str(&mut s, hex.as_str());
            assert(s@ =~= join_with(before, ':') + seq![':'] + hex@);
        } else {
            assert(before.push(hex@) =~= seq![hex@]);
            push_str(&mut s, hex.as_str());
            assert(s@ =~= hex@);
        }
        i += 1;
    }
    assert(palette@.take(i as int) =~= palette@);
    s
}

proof fn lemma_split_skips(a: Seq<char>, rest: Seq<char>, sep: char, cur: Seq<char>)
    requires
        forall|j: int| 0 <= j < a.len() ==> a[j] != sep,
    ensures
        split_from(a + rest, sep, cur) == split_from(rest, sep, cur + a),
    decreases a.len(),
{
    if a.len() == 0 {
        assert(a + rest =~= rest);
        assert(cur + a =~= cur);
    } else {
        assert((a + rest).drop_first() =~= a.drop_first() + rest);
        lemma_split_skips(a.drop_first(), rest, sep, cur.push(a[0]));
        assert(cur.push(a[0]) + a.drop_first() =~= cur + a);
    }
}

proof fn lemma_split_join(pieces: Seq<Seq<char>>, sep: char)
    requires
        pieces.len() >= 1,
        forall|k: int, j: int| 0 <= k < pieces.len() && 0 <= j < pieces[k].len() ==> pieces[k][j] != sep,
    ensures
        split_on(join_with(pieces, sep), sep) == pieces,
    decreases pieces.len(),
{
    let p0 = pieces[0];
    if pieces.len() == 1 {
        lemma_split_skips(p0, seq![], sep, seq![]);
        assert(p0 + seq![] =~= p0);
        assert(seq![] + p0 =~= p0);
        assert(seq![p0] =~= pieces);
    } else {
        let rest = join_with(pieces.drop_first(), sep);
        lemma_split_join(pieces.drop_first(), sep);
        assert(p0 + seq![sep] + rest =~= p0 + (seq![sep] + rest));
        lemma_split_skips(p0, seq![sep] + rest, sep, seq![]);
        assert(seq![] + p0 =~= p0);
        assert((seq![sep] + rest).drop_first() =~= rest);
        assert(seq![p0] + pieces.drop_first() =~= pieces);
    }
}

proof fn lemma_hex_has_no_colon(c: Rgb)
    ensures
        forall|j: int| 0 <= j < hex_string(c).len() ==> hex_string(c)[j] != ':',
{
}

/// A v3 theme written out reads back as the same colours: the palette text
/// of an 8- or 16-colour palette parses to exactly that palette.
pub proof fn palette_round_trip(palette: Seq<Rgb>)
    requires
        palette.len() == 8 || palette.len() == 16,
    ensures
        cast_theme_spec(join_with(palette_hexes(palette), ':')) == Ok::<Seq<Rgb>, CastError>(palette),
{
    let pieces = palette_hexes(palette);
    assert forall|k: int, j: int| 0 <= k < pieces.len() && 0 <= j < pieces[k].len() implies pieces[k][j]
        != ':' by {
        lemma_hex_has_no_colon(palette[k]);
    }
    lemma_split_join(pieces, ':');
    assert forall|k: int| 0 <= k < pieces.len() implies parse_color(pieces[k]) == Ok::<Rgb, ColorError>(
        palette[k],
    ) by {
        hex_parse_round_trip(palette[k]);
    }
    assert(pieces.map_values(|p: Seq<char>| parse_color(p)->Ok_0) =~= palette);
}

/// ASCII lowercase of `c`.
pub open spec fn ascii_lower(c: char) -> char {
    if 'A' <= c && c <= 'Z' {
        ((c as u32) + 32) as char
    } else {
        c
    }
}

/// Whether a file extension names an asciicast: `cast`, in any ASCII case.
pub open spec fn is_cast_extension_spec(ext: Seq<char>) -> bool {
    &&& ext.len() == 4
    &&& ascii_lower(ext[0]) == 'c'
    &&& ascii_lower(ext[1]) == 'a'
    &&& ascii_lower(ext[2]) == 's'
    &&& ascii_lower(ext[3]) == 't'
}

fn lower(c: char) -> (l: char)
    ensures
        l == ascii_lower(c),
{
    if 'A' <= c && c <= 'Z' {
        ((c as u32 as u8) + 32) as char
    } else {
        c
    }
}

/// The extension test behind recognizing a recording by its file name.
pub fn is_cast_extension(ext: &str) -> (b: bool)
    ensures
        b == is_cast_extension_spec(ext@),
{
    let v = to_chars(ext);
    v.len() == 4 && lower(v[0]) == 'c' && lower(v[1]) == 'a' && lower(v[2]) == 's' && lower(v[3])
        == 't'
}

/// Whether a file holds an asciicast recording: a `.cast` extension in any
/// ASCII case, or else a first line that parses as an asciicast header
/// (which covers downloaded recordings named `.json` and the like).
pub fn looks_like_cast(extension: Option<&str>, header_parses: bool) -> (b: bool)
    ensures
        b == ((extension matches Some(e) && is_cast_extension_spec(e@)) || header_parses),
{
    match extension {
        Some(e) => if is_cast_extension(e) {
            true
        } else {
            header_parses
        },
        None => header_parses,
    }
}

} // verus!
