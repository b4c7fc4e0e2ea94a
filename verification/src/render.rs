//! SVG text helpers and the rendering vocabulary shared with the renderer.
use vstd::prelude::*;

use crate::cast::split_on;
use crate::term::screen::{PenColor, RunView, StyledRun};
use crate::term::{attrs_of, VtPen};
use crate::text::{decimal, push_char, push_decimal, push_str, string_from_chars, to_chars};
use crate::theme::{hex_string, Rgb, Theme};

verus! {

/// Cursor shape in animated output.
#[derive(Debug, Clone, Copy, PartialEq, Eq, Structural)]
pub enum CursorStyle {
    Block,
    Bar,
    Underline,
    /// No cursor is drawn
    Hidden,
}

/// Window chrome style. Chrome geometry is fixed-size like a real window:
/// it does not scale with the terminal font.
#[derive(Debug, Clone, Copy, PartialEq, Eq, Structural)]
pub enum ChromeStyle {
    /// macOS: traffic lights on the left, centered title
    Macos,
    /// Windows PowerShell console: white title bar, square corners,
    /// caption buttons and scrollbar on the right
    Windows,
    /// Ubuntu GNOME Terminal: dark header bar with round buttons (orange
    /// close), centered title, and a menu bar
    Ubuntu,
    /// Bare panel without a title bar
    Bare,
}

impl Default for CursorStyle {
    fn default() -> (c: CursorStyle)
        ensures
            c == CursorStyle::Block,
    {
        CursorStyle::Block
    }
}

impl Default for ChromeStyle {
    fn default() -> (c: ChromeStyle)
        ensures
            c == ChromeStyle::Macos,
    {
        ChromeStyle::Macos
    }
}

/// Embedded font faces for the document's `@font-face` rules.
#[derive(Debug, Clone)]
pub struct FontFaces {
    pub family: String,
    /// (CSS font-weight, base64 WOFF2) pairs.
    pub faces: Vec<(u16, String)>,
}

pub const DEFAULT_FONT_STACK: &'static str = "Menlo,Consolas,'DejaVu Sans Mono',monospace,'Apple Color Emoji','Segoe UI Emoji','Noto Color Emoji'";

/// The escape for one character of XML text or attribute value.
pub open spec fn xml_escape_char(c: char) -> Seq<char> {
    if c == '&' {
        seq!['&', 'a', 'm', 'p', ';']
    } else if c == '<' {
        seq!['&', 'l', 't', ';']
    } else if c == '>' {
        seq!['&', 'g', 't', ';']
    } else if c == '"' {
        seq!['&', 'q', 'u', 'o', 't', ';']
    } else {
        seq![c]
    }
}

pub open spec fn xml_escape_spec(s: Seq<char>) -> Seq<char>
    decreases s.len(),
{
    if s.len() == 0 {
        seq![]
    } else {
        xml_escape_spec(s.drop_last()) + xml_escape_char(s.last())
    }
}

fn push_str_chars(out: &mut String, piece: &[char])
    ensures
        final(out)@ == old(out)@ + piece@,
{
    let mut i: usize = 0;
    while i < piece.len()
        invariant
            i <= piece@.len(),
            out@ == old(out)@ + piece@.take(i as int),
        decreases piece@.len() - i,
    {
        crate::text::push_char(out, piece[i]);
        i += 1;
        assert(out@ =~= old(out)@ + piece@.take(i as int));
    }
    assert(piece@.take(i as int) =~= piece@);
}

/// Escapes `&`, `<`, `>` and `"` for XML text and attribute values.
pub fn xml_escape(s: &str) -> (out: String)
    ensures
        out@ == xml_escape_spec(s@),
{
    let chars = to_chars(s);
    let mut out = String::new();
    let mut i: usize = 0;
    while i < chars.len()
        invariant
            i <= chars@.len(),
            chars@ == s@,
            out@ == xml_escape_spec(chars@.take(i as int)),
        decreases chars@.len() - i,
    {
        let c = chars[i];
        if c == '&' {
            push_str_chars(&mut out, &['&', 'a', 'm', 'p', ';']);
        } else if c == '<' {
            push_str_chars(&mut out, &['&', 'l', 't', ';']);
        } else if c == '>' {
            push_str_chars(&mut out, &['&', 'g', 't', ';']);
        } else if c == '"' {
            push_str_chars(&mut out, &['&', 'q', 'u', 'o', 't', ';']);
        } else {
            crate::text::push_char(&mut out, c);
        }
        assert(chars@.take(i + 1).drop_last() =~= chars@.take(i as int));
        assert(chars@.take(i + 1).last() == c);
        i += 1;
        assert(out@ =~= xml_escape_spec(chars@.take(i as int)));
    }
    assert(chars@.take(i as int) =~= chars@);
    out
}

/// The CSS class for a palette-dependent color; None for colors that are
/// the same in every theme.
pub open spec fn palette_class_spec(color: PenColor) -> Option<Seq<char>> {
    match color {
        PenColor::DefaultFg => Some(seq!['c', 'f']),
        PenColor::DefaultBg => Some(seq!['c', 'b']),
        PenColor::Indexed(i) => Some(seq!['c'] + decimal(i as nat)),
        PenColor::Rgb(_) => None,
    }
}

pub fn palette_class(color: PenColor) -> (r: Option<String>)
    ensures
        r matches Some(s) ==> palette_class_spec(color) == Some(s@),
        r is None ==> palette_class_spec(color) is None,
{
    match color {
        PenColor::DefaultFg => {
            let s = string_from_chars(&['c', 'f']);
            Some(s)
        },
        PenColor::DefaultBg => {
            let s = string_from_chars(&['c', 'b']);
            Some(s)
        },
        PenColor::Indexed(i) => {
            let mut s = String::new();
            crate::text::push_char(&mut s, 'c');
            push_decimal(&mut s, i as usize);
            assert(s@ =~= seq!['c'] + decimal(i as nat));
            Some(s)
        },
        PenColor::Rgb(_) => None,
    }
}

/// Space-free segments of `pieces` (the text split at spaces), with the
/// character offset each starts at, counting from `start`.
pub open spec fn segments_from(pieces: Seq<Seq<char>>, start: int) -> Seq<(int, Seq<char>)>
    decreases pieces.len(),
{
    if pieces.len() == 0 {
        seq![]
    } else {
        (if pieces[0].len() > 0 {
            seq![(start, pieces[0])]
        } else {
            seq![]
        }) + segments_from(pieces.drop_first(), start + pieces[0].len() + 1)
    }
}

/// Maximal space-free segments of a run's text with their char offsets.
pub open spec fn space_free_segments_spec(text: Seq<char>) -> Seq<(int, Seq<char>)> {
    segments_from(split_on(text, ' '), 0)
}

pub open spec fn segments_view(v: Seq<(usize, String)>) -> Seq<(int, Seq<char>)> {
    v.map_values(|p: (usize, String)| (p.0 as int, p.1@))
}

proof fn lemma_split_total_len(s: Seq<char>, cur: Seq<char>)
    ensures
        pieces_len(crate::cast::split_from(s, ' ', cur)) == cur.len() + s.len() + 1,
    decreases s.len(),
{
    if s.len() == 0 {
        assert(seq![cur].drop_first() =~= Seq::<Seq<char>>::empty());
        assert(pieces_len(Seq::<Seq<char>>::empty()) == 0);
        assert(pieces_len(seq![cur]) == cur.len() + 1);
    } else if s[0] == ' ' {
        lemma_split_total_len(s.drop_first(), seq![]);
        let rest = crate::cast::split_from(s.drop_first(), ' ', seq![]);
        assert((seq![cur] + rest)[0] == cur);
        assert((seq![cur] + rest).drop_first() =~= rest);
    } else {
        lemma_split_total_len(s.drop_first(), cur.push(s[0]));
    }
}

/// `seg` is a non-empty, space-free piece of `text` found at its offset.
pub open spec fn segment_in(text: Seq<char>, seg: (int, Seq<char>)) -> bool {
    &&& seg.1.len() > 0
    &&& 0 <= seg.0 && seg.0 + seg.1.len() <= text.len()
    &&& text.subrange(seg.0, seg.0 + seg.1.len()) == seg.1
    &&& forall|j: int| 0 <= j < seg.1.len() ==> seg.1[j] != ' '
}

proof fn lemma_segments_in(text: Seq<char>, p: int, start: int, cur: Seq<char>)
    requires
        0 <= start <= p <= text.len(),
        cur == text.subrange(start, p),
        forall|j: int| 0 <= j < cur.len() ==> cur[j] != ' ',
    ensures
        forall|k: int|
            0 <= k < segments_from(crate::cast::split_from(text.skip(p), ' ', cur), start).len()
                ==> segment_in(
                text,
                #[trigger] segments_from(crate::cast::split_from(text.skip(p), ' ', cur), start)[k],
            ),
    decreases text.len() - p,
{
    let s = text.skip(p);
    let head: Seq<(int, Seq<char>)> = if cur.len() > 0 {
        seq![(start, cur)]
    } else {
        seq![]
    };
    if p == text.len() {
        assert(s.len() == 0);
        assert(crate::cast::split_from(s, ' ', cur) == seq![cur]);
        let segs = segments_from(seq![cur], start);
        assert(seq![cur].drop_first() =~= Seq::<Seq<char>>::empty());
        assert(segments_from(seq![cur].drop_first(), start + cur.len() + 1) == Seq::<(int, Seq<char>)>::empty());
        assert(segs =~= head);
        assert forall|k: int| 0 <= k < segs.len() implies segment_in(text, #[trigger] segs[k]) by {
            assert(segs[k] == (start, cur));
        }
    } else if text[p] == ' ' {
        assert(s[0] == text[p]);
        assert(s.drop_first() =~= text.skip(p + 1));
        let rest = crate::cast::split_from(text.skip(p + 1), ' ', seq![]);
        assert(text.subrange(p + 1, p + 1) =~= Seq::<char>::empty());
        lemma_segments_in(text, p + 1, p + 1, seq![]);
        let all = seq![cur] + rest;
        assert(crate::cast::split_from(s, ' ', cur) == all);
        assert(all[0] == cur);
        assert(all.drop_first() =~= rest);
        let tail = segments_from(rest, start + cur.len() + 1);
        let segs = segments_from(all, start);
        assert(segs == head + tail);
        assert forall|k: int| 0 <= k < segs.len() implies segment_in(text, #[trigger] segs[k]) by {
            if k < head.len() {
                assert(segs[k] == (start, cur));
            } else {
                assert(segs[k] == tail[k - head.len()]);
            }
        }
    } else {
        assert(s[0] == text[p]);
        assert(s.drop_first() =~= text.skip(p + 1));
        assert(cur.push(text[p]) =~= text.subrange(start, p + 1));
        lemma_segments_in(text, p + 1, start, cur.push(text[p]));
        assert(crate::cast::split_from(s, ' ', cur) == crate::cast::split_from(
            text.skip(p + 1),
            ' ',
            cur.push(text[p]),
        ));
    }
}

/// No space glyphs, ever: every segment of a run's text is non-empty,
/// holds no space, and is exactly the text found at its offset.
pub proof fn segments_are_space_free(text: Seq<char>)
    ensures
        forall|k: int|
            0 <= k < space_free_segments_spec(text).len() ==> segment_in(
                text,
                #[trigger] space_free_segments_spec(text)[k],
            ),
{
    assert(text.subrange(0, 0) =~= Seq::<char>::empty());
    assert(text.skip(0) =~= text);
    lemma_segments_in(text, 0, 0, seq![]);
}

proof fn lemma_pieces_len_nonneg(p: Seq<Seq<char>>)
    ensures
        pieces_len(p) >= 0,
    decreases p.len(),
{
    if p.len() > 0 {
        lemma_pieces_len_nonneg(p.drop_first());
    }
}

/// Characters of all pieces plus one separator after each.
pub open spec fn pieces_len(p: Seq<Seq<char>>) -> int
    decreases p.len(),
{
    if p.len() == 0 {
        0
    } else {
        p[0].len() + 1 + pieces_len(p.drop_first())
    }
}

pub fn space_free_segments(text: &str) -> (segs: Vec<(usize, String)>)
    requires
        text@.len() < usize::MAX,
    ensures
        segments_view(segs@) == space_free_segments_spec(text@),
{
    let pieces = crate::cast::split_chars(text, ' ');
    let ghost ps = split_on(text@, ' ');
    proof {
        lemma_split_total_len(text@, seq![]);
    }
    let mut segs: Vec<(usize, String)> = Vec::new();
    let mut col: usize = 0;
    let mut k: usize = 0;
    assert(ps.skip(0) =~= ps);
    while k < pieces.len()
        invariant
            k <= pieces@.len(),
            pieces@.map_values(|p: String| p@) == ps,
            col + pieces_len(ps.skip(k as int)) == text@.len() + 1,
            text@.len() < usize::MAX,
            segments_view(segs@) + segments_from(ps.skip(k as int), col as int)
                == space_free_segments_spec(text@),
        decreases pieces@.len() - k,
    {
        let ghost rest = ps.skip(k as int);
        assert(rest[0] == pieces@[k as int]@);
        assert(rest.drop_first() =~= ps.skip(k + 1));
        proof {
            lemma_pieces_len_nonneg(rest.drop_first());
        }
        let piece = &pieces[k];
        let n = to_chars(piece.as_str()).len();
        let ghost before = segments_view(segs@);
        if n > 0 {
            segs.push((col, piece.clone()));
            assert(segments_view(segs@) =~= before + seq![(col as int, rest[0])]);
        } else {
            assert(before + Seq::<(int, Seq<char>)>::empty() =~= before);
        }
        col = col + n + 1;
        k += 1;
    }
    assert(ps.skip(k as int) =~= Seq::<Seq<char>>::empty());
    assert(segments_view(segs@) + Seq::<(int, Seq<char>)>::empty() =~= segments_view(segs@));
    segs
}

/// How run colours become SVG attributes.
pub enum FillMode<'a> {
    /// Resolve to inline hex against one theme (static and single-theme
    /// animated output).
    Hex(&'a Theme),
    /// Emit palette classes (`cf`/`cb`/`c0`–`c15`) so a CSS block can
    /// switch the palette; theme-independent colours stay inline.
    Class,
}

/// Each channel halfway between `a` and `b`, halves rounded up: blending
/// at exactly one half.
pub open spec fn blend_half_spec(a: Rgb, b: Rgb) -> Rgb {
    Rgb {
        r: ((a.r + b.r + 1) / 2) as u8,
        g: ((a.g + b.g + 1) / 2) as u8,
        b: ((a.b + b.b + 1) / 2) as u8,
    }
}

/// Halfway blend of two colours (a channel `x.5` rounds up).
pub fn blend_half(a: Rgb, b: Rgb) -> (c: Rgb)
    ensures
        c == blend_half_spec(a, b),
{
    Rgb {
        r: ((a.r as u16 + b.r as u16 + 1) / 2) as u8,
        g: ((a.g as u16 + b.g as u16 + 1) / 2) as u8,
        b: ((a.b as u16 + b.b as u16 + 1) / 2) as u8,
    }
}

/// The run's foreground under one theme; faint text is dimmed halfway
/// toward its effective background.
pub open spec fn resolved_fg_spec(run: RunView, theme: Theme) -> Rgb {
    let fg = run.fg.value_in(theme);
    if run.faint {
        let bg = match run.bg {
            Some(b) => b.value_in(theme),
            None => theme.background,
        };
        blend_half_spec(fg, bg)
    } else {
        fg
    }
}

/// The run's foreground as concrete RGB under one theme, faint applied.
pub fn resolved_fg(run: &StyledRun, theme: &Theme) -> (c: Rgb)
    ensures
        c == resolved_fg_spec(run@, *theme),
{
    let fg = run.fg.resolve(theme);
    if run.faint {
        let bg = match run.bg {
            Some(b) => b.resolve(theme),
            None => theme.background,
        };
        blend_half(fg, bg)
    } else {
        fg
    }
}

/// Bold does not brighten colours: a pen resolves to the same colours with
/// or without bold, and a run's colour under any theme does not depend on
/// its being bold.
pub proof fn bold_does_not_brighten(pen: VtPen, run: RunView, theme: Theme)
    ensures
        attrs_of(VtPen { bold: !pen.bold, ..pen }).fg == attrs_of(pen).fg,
        attrs_of(VtPen { bold: !pen.bold, ..pen }).bg == attrs_of(pen).bg,
        resolved_fg_spec(RunView { bold: !run.bold, ..run }, theme) == resolved_fg_spec(run, theme),
{
}

/// Faint text dims halfway toward the background it actually sits on: a
/// faint run on its own background colours exactly as the same run on the
/// window background would under a theme whose window background is that
/// colour. Text that is not faint keeps its colour whatever the background.
/// The halfway blend is the rounded-up mean of each channel.
pub proof fn faint_dims_toward_its_own_background(run: RunView, theme: Theme, other: Option<PenColor>, a: Rgb, b: Rgb)
    ensures
        run.faint && run.fg != PenColor::DefaultBg && run.bg is Some ==> resolved_fg_spec(run, theme)
            == resolved_fg_spec(
            RunView { bg: None, ..run },
            Theme { background: run.bg->0.value_in(theme), ..theme },
        ),
        run.faint && run.bg is None ==> resolved_fg_spec(run, theme) == blend_half_spec(
            run.fg.value_in(theme),
            theme.background,
        ),
        !run.faint ==> resolved_fg_spec(run, theme) == run.fg.value_in(theme) && resolved_fg_spec(
            RunView { bg: other, ..run },
            theme,
        ) == resolved_fg_spec(run, theme),
        ({
            let c = blend_half_spec(a, b);
            &&& a.r + b.r <= 2 * c.r <= a.r + b.r + 1
            &&& a.g + b.g <= 2 * c.g <= a.g + b.g + 1
            &&& a.b + b.b <= 2 * c.b <= a.b + b.b + 1
        }),
{
}

/// Italic and bold text is marked by its classes: a run gets a style class
/// exactly when it is bold or italic, and that class names `i` exactly
/// when the run is italic and `b` exactly when it is bold.
pub proof fn style_classes_mark_bold_and_italic(run: RunView)
    ensures
        style_class_spec(run) is Some <==> (run.bold || run.italic),
        style_class_spec(run) is Some ==> (style_class_spec(run)->0.contains('i') <==> run.italic),
        style_class_spec(run) is Some ==> (style_class_spec(run)->0.contains('b') <==> run.bold),
{
    if run.bold && run.italic {
        assert("b i"@ =~= seq!['b', ' ', 'i']) by {
            reveal_strlit("b i");
        }
        assert(seq!['b', ' ', 'i'][0] == 'b');
        assert(seq!['b', ' ', 'i'][2] == 'i');
    } else if run.bold {
        assert("b"@ =~= seq!['b']) by {
            reveal_strlit("b");
        }
        assert(!seq!['b'].contains('i')) by {
            assert forall|j: int| 0 <= j < 1 implies seq!['b'][j] != 'i' by {}
        }
        assert(seq!['b'][0] == 'b');
    } else if run.italic {
        assert("i"@ =~= seq!['i']) by {
            reveal_strlit("i");
        }
        assert(!seq!['i'].contains('b')) by {
            assert forall|j: int| 0 <= j < 1 implies seq!['i'][j] != 'b' by {}
        }
        assert(seq!['i'][0] == 'i');
    }
}

/// The style classes bold and italic contribute.
pub open spec fn style_class_spec(run: RunView) -> Option<Seq<char>> {
    if run.bold && run.italic {
        Some("b i"@)
    } else if run.bold {
        Some("b"@)
    } else if run.italic {
        Some("i"@)
    } else {
        None
    }
}

/// ` name="value"`.
pub open spec fn attr_spec(name: Seq<char>, value: Seq<char>) -> Seq<char> {
    seq![' '] + name + seq!['=', '"'] + value + seq!['"']
}

/// The class list in palette mode: the foreground's palette class, then
/// the style classes.
pub open spec fn class_list_spec(run: RunView) -> Option<Seq<char>> {
    match (palette_class_spec(run.fg), style_class_spec(run)) {
        (Some(p), Some(c)) => Some(p + seq![' '] + c),
        (Some(p), None) => Some(p),
        (None, Some(c)) => Some(c),
        (None, None) => None,
    }
}

/// The attributes after x/y on a run's `<text>` elements.
pub open spec fn text_attrs_spec(run: RunView, mode: FillMode) -> Seq<char> {
    match mode {
        FillMode::Hex(theme) => attr_spec("fill"@, hex_string(resolved_fg_spec(run, *theme))) + match style_class_spec(run) {
            Some(c) => attr_spec("class"@, c),
            None => seq![],
        },
        FillMode::Class => (match run.fg {
            PenColor::Rgb(c) => attr_spec("fill"@, hex_string(c)),
            _ => seq![],
        }) + (match class_list_spec(run) {
            Some(c) => attr_spec("class"@, c),
            None => seq![],
        }) + (if run.faint {
            attr_spec("fill-opacity"@, "0.5"@)
        } else {
            seq![]
        }),
    }
}

/// The colour attributes for a run's decoration `<line>` elements, which
/// stroke rather than fill.
pub open spec fn line_attrs_spec(run: RunView, mode: FillMode) -> Seq<char> {
    match mode {
        FillMode::Hex(theme) => attr_spec("stroke"@, hex_string(resolved_fg_spec(run, *theme))).drop_first(),
        FillMode::Class => (match run.fg {
            PenColor::Rgb(c) => attr_spec("stroke"@, hex_string(c)).drop_first(),
            _ => attr_spec("class"@, palette_class_spec(run.fg).unwrap()).drop_first(),
        }) + (if run.faint {
            attr_spec("stroke-opacity"@, "0.5"@)
        } else {
            seq![]
        }),
    }
}

/// Appends ` name="value"`.
fn push_attr(out: &mut String, name: &str, value: &str)
    ensures
        final(out)@ == old(out)@ + attr_spec(name@, value@),
{
    push_char(out, ' ');
    push_str(out, name);
    push_str(out, "=\"");
    proof {
        reveal_strlit("=\"");
    }
    push_str(out, value);
    push_char(out, '"');
    assert(final(out)@ =~= old(out)@ + attr_spec(name@, value@));
}

fn style_class(run: &StyledRun) -> (c: Option<&'static str>)
    ensures
        match c {
            Some(s) => style_class_spec(run@) == Some(s@),
            None => style_class_spec(run@) is None,
        },
{
    if run.bold && run.italic {
        Some("b i")
    } else if run.bold {
        Some("b")
    } else if run.italic {
        Some("i")
    } else {
        None
    }
}

/// The attributes after x/y on a run's `<text>` elements: fill and/or
/// class (bold/italic ride along), plus faint dimming in palette mode.
pub fn text_attrs(run: &StyledRun, mode: &FillMode) -> (attrs: String)
    ensures
        attrs@ == text_attrs_spec(run@, *mode),
{
    let style = style_class(run);
    match mode {
        FillMode::Hex(theme) => {
            let mut attrs = String::new();
            let fg = resolved_fg(run, theme);
            push_attr(&mut attrs, "fill", fg.hex().as_str());
            if let Some(c) = style {
                push_attr(&mut attrs, "class", c);
            }
            assert(attrs@ =~= text_attrs_spec(run@, *mode));
            attrs
        },
        FillMode::Class => {
            let mut attrs = String::new();
            let ghost base = attrs@;
            match run.fg {
                PenColor::Rgb(c) => push_attr(&mut attrs, "fill", c.hex().as_str()),
                _ => {},
            }
            let ghost fill_part = attrs@;
            let palette = palette_class(run.fg);
            match (palette, style) {
                (Some(p), Some(c)) => {
                    let mut list = p;
                    push_char(&mut list, ' ');
                    push_str(&mut list, c);
                    push_attr(&mut attrs, "class", list.as_str());
                },
                (Some(p), None) => push_attr(&mut attrs, "class", p.as_str()),
                (None, Some(c)) => push_attr(&mut attrs, "class", c),
                (None, None) => {},
            }
            let ghost class_part = attrs@;
            if run.faint {
                push_attr(&mut attrs, "fill-opacity", "0.5");
            }
            assert(attrs@ =~= text_attrs_spec(run@, *mode));
            attrs
        },
    }
}

/// The colour attribute for a run's decoration `<line>` elements (the
/// palette CSS pairs `line.cN{stroke:…}`).
pub fn line_attrs(run: &StyledRun, mode: &FillMode) -> (attrs: String)
    ensures
        attrs@ == line_attrs_spec(run@, *mode),
{
    match mode {
        FillMode::Hex(theme) => {
            let mut attrs = String::new();
            let fg = resolved_fg(run, theme);
            push_attr(&mut attrs, "stroke", fg.hex().as_str());
            let a = drop_first_char(&attrs);
            assert(a@ =~= line_attrs_spec(run@, *mode));
            a
        },
        FillMode::Class => {
            let mut first = String::new();
            match run.fg {
                PenColor::Rgb(c) => push_attr(&mut first, "stroke", c.hex().as_str()),
                _ => {
                    let p = palette_class(run.fg);
                    match p {
                        Some(p) => push_attr(&mut first, "class", p.as_str()),
                        None => {},
                    }
                },
            }
            let mut attrs = drop_first_char(&first);
            if run.faint {
                push_attr(&mut attrs, "stroke-opacity", "0.5");
            }
            assert(attrs@ =~= line_attrs_spec(run@, *mode));
            attrs
        },
    }
}

/// `s` without its first character.
fn drop_first_char(s: &String) -> (t: String)
    requires
        s@.len() > 0,
    ensures
        t@ == s@.drop_first(),
{
    let v = to_chars(s.as_str());
    let mut t = String::new();
    let mut i: usize = 1;
    while i < v.len()
        invariant
            1 <= i <= v@.len(),
            v@ == s@,
            t@ == v@.subrange(1, i as int),
        decreases v@.len() - i,
    {
        push_char(&mut t, v[i]);
        i += 1;
        assert(t@ =~= v@.subrange(1, i as int));
    }
    assert(v@.subrange(1, i as int) =~= s@.drop_first());
    t
}

/// The title bar text, picked in order: `--title`, the recording's own
/// title, the last title the program set via OSC 0/2, then the fallback
/// (the command string, for PTY captures).
pub open spec fn title_spec(
    explicit: Option<Seq<char>>,
    recording: Option<Seq<char>>,
    osc: Seq<Seq<char>>,
    fallback: Option<Seq<char>>,
) -> Option<Seq<char>> {
    if explicit is Some {
        explicit
    } else if recording is Some {
        recording
    } else if osc.len() > 0 {
        Some(osc.last())
    } else {
        fallback
    }
}

pub open spec fn opt_view(o: Option<&str>) -> Option<Seq<char>> {
    match o {
        Some(s) => Some(s@),
        None => None,
    }
}

/// Picks the title bar text.
pub fn detect_title(
    explicit: Option<&str>,
    recording: Option<&str>,
    osc: &Vec<String>,
    fallback: Option<&str>,
) -> (t: Option<String>)
    ensures
        match t {
            Some(s) => title_spec(
                opt_view(explicit),
                opt_view(recording),
                osc@.map_values(|x: String| x@),
                opt_view(fallback),
            ) == Some(s@),
            None => title_spec(
                opt_view(explicit),
                opt_view(recording),
                osc@.map_values(|x: String| x@),
                opt_view(fallback),
            ) is None,
        },
{
    let ghost titles = osc@.map_values(|x: String| x@);
    if let Some(e) = explicit {
        return Some(e.to_string());
    }
    if let Some(r) = recording {
        return Some(r.to_string());
    }
    if osc.len() > 0 {
        let last = osc[osc.len() - 1].clone();
        assert(titles.last() == osc@[osc@.len() - 1]@);
        return Some(last);
    }
    match fallback {
        Some(f) => Some(f.to_string()),
        None => None,
    }
}

/// A detected title that looks like a path: it starts at `/` or `~`.
pub open spec fn path_like(title: Seq<char>) -> bool {
    title.len() > 0 && (title[0] == '/' || title[0] == '~')
}

/// The title as shown: a detected title that looks like a path gets the
/// title emoji (📁 unless `--title-emoji` swaps it; an empty emoji removes
/// it) and a space in front.
pub open spec fn shown_title_spec(title: Seq<char>, detected: bool, emoji: Option<Seq<char>>) -> Seq<
    char,
> {
    let e = match emoji {
        Some(e) => e,
        None => "\u{1F4C1}"@,
    };
    if detected && path_like(title) && e.len() > 0 {
        e + seq![' '] + title
    } else {
        title
    }
}

/// The title as the title bar shows it.
pub fn shown_title(title: &str, detected: bool, emoji: Option<&str>) -> (s: String)
    ensures
        s@ == shown_title_spec(title@, detected, opt_view(emoji)),
{
    let e = match emoji {
        Some(e) => e,
        None => "\u{1F4C1}",
    };
    let v = to_chars(title);
    let path = v.len() > 0 && (v[0] == '/' || v[0] == '~');
    let ev = to_chars(e);
    if detected && path && ev.len() > 0 {
        let mut s = String::new();
        push_str(&mut s, e);
        push_char(&mut s, ' ');
        push_str(&mut s, title);
        s
    } else {
        title.to_string()
    }
}

} // verus!
