//! The render-ready screen: rows of attribute-resolved styled runs.
use vstd::prelude::*;

use crate::text::{push_char, string_from_chars, to_chars};
use crate::theme::{Rgb, Theme};

verus! {

/// A run colour, kept symbolic where the theme decides it: the default
/// foreground/background and the 16 palette entries resolve at render
/// time; every other colour is already concrete.
#[derive(Debug, Clone, Copy, PartialEq, Eq, Structural)]
pub enum PenColor {
    DefaultFg,
    DefaultBg,
    Indexed(u8),
    Rgb(Rgb),
}

impl PenColor {
    pub open spec fn value_in(self, theme: Theme) -> Rgb {
        match self {
            PenColor::DefaultFg => theme.foreground,
            PenColor::DefaultBg => theme.background,
            PenColor::Indexed(i) => theme.indexed_color(i as int),
            PenColor::Rgb(c) => c,
        }
    }

    /// The concrete colour under `theme`.
    pub fn resolve(self, theme: &Theme) -> (c: Rgb)
        ensures
            c == self.value_in(*theme),
    {
        match self {
            PenColor::DefaultFg => theme.foreground,
            PenColor::DefaultBg => theme.background,
            PenColor::Indexed(i) => theme.resolve_indexed(i),
            PenColor::Rgb(c) => c,
        }
    }
}

/// A horizontal run of cells sharing identical resolved attributes.
#[derive(Debug, Clone, PartialEq)]
pub struct StyledRun {
    /// Starting column (0-based).
    pub col: usize,
    /// Number of terminal columns covered (wide chars count 2).
    pub width: usize,
    pub text: String,
    pub fg: PenColor,
    /// None means the theme's default background (the window body).
    pub bg: Option<PenColor>,
    pub faint: bool,
    pub bold: bool,
    pub italic: bool,
    pub underline: bool,
    pub strikethrough: bool,
    /// True when the run is a single double-width character.
    pub wide: bool,
}

/// The value of a [`StyledRun`], with its text as characters.
pub ghost struct RunView {
    pub col: usize,
    pub width: usize,
    pub text: Seq<char>,
    pub fg: PenColor,
    pub bg: Option<PenColor>,
    pub faint: bool,
    pub bold: bool,
    pub italic: bool,
    pub underline: bool,
    pub strikethrough: bool,
    pub wide: bool,
}

impl View for StyledRun {
    type V = RunView;

    open spec fn view(&self) -> RunView {
        RunView {
            col: self.col,
            width: self.width,
            text: self.text@,
            fg: self.fg,
            bg: self.bg,
            faint: self.faint,
            bold: self.bold,
            italic: self.italic,
            underline: self.underline,
            strikethrough: self.strikethrough,
            wide: self.wide,
        }
    }
}

/// Only spaces.
pub open spec fn all_spaces(s: Seq<char>) -> bool {
    forall|i: int| 0 <= i < s.len() ==> s[i] == ' '
}

/// A run that draws nothing: spaces on the default background, undecorated.
pub open spec fn run_is_blank(r: RunView) -> bool {
    &&& r.bg is None
    &&& !r.underline
    &&& !r.strikethrough
    &&& all_spaces(r.text)
}

impl StyledRun {
    pub fn is_blank(&self) -> (b: bool)
        ensures
            b == run_is_blank(self@),
    {
        if self.bg.is_some() || self.underline || self.strikethrough {
            return false;
        }
        let chars = to_chars(self.text.as_str());
        let mut i: usize = 0;
        while i < chars.len()
            invariant
                i <= chars@.len(),
                chars@ == self.text@,
                forall|j: int| 0 <= j < i ==> chars@[j] == ' ',
            decreases chars@.len() - i,
        {
            if chars[i] != ' ' {
                return false;
            }
            i += 1;
        }
        true
    }
}

/// A copy of `r` with the same value.
pub fn copy_run(r: &StyledRun) -> (c: StyledRun)
    ensures
        c@ == r@,
{
    StyledRun {
        col: r.col,
        width: r.width,
        text: r.text.clone(),
        fg: r.fg,
        bg: r.bg,
        faint: r.faint,
        bold: r.bold,
        italic: r.italic,
        underline: r.underline,
        strikethrough: r.strikethrough,
        wide: r.wide,
    }
}

/// Render-ready screen: attribute-resolved runs, one Vec per row.
#[derive(Debug)]
pub struct Screen {
    pub cols: usize,
    pub rows: Vec<Vec<StyledRun>>,
}

/// The rows of a screen as run values.
pub open spec fn rows_view(rows: Seq<Vec<StyledRun>>) -> Seq<Seq<RunView>> {
    rows.map_values(|row: Vec<StyledRun>| row@.map_values(|r: StyledRun| r@))
}

// ---------------------------------------------------------------------
// Splitting runs around characters the embedded font does not cover.

/// Columns one character of `run` advances: wide runs hold a single
/// double-width character.
pub open spec fn char_cols(run: RunView) -> int {
    if run.wide {
        2
    } else {
        1
    }
}

/// Characters that stay in a shared run: spaces and covered characters.
pub open spec fn keeps(c: char, covered: spec_fn(char) -> bool) -> bool {
    c == ' ' || covered(c)
}

pub open spec fn all_kept(s: Seq<char>, covered: spec_fn(char) -> bool) -> bool {
    forall|i: int| 0 <= i < s.len() ==> keeps(#[trigger] s[i], covered)
}

/// `run`'s attributes on `text` starting at column `col`.
pub open spec fn piece(run: RunView, col: int, text: Seq<char>) -> RunView {
    RunView { col: col as usize, width: (text.len() * char_cols(run)) as usize, text, ..run }
}

pub open spec fn flush(run: RunView, pending: Seq<char>, pending_col: int) -> Seq<RunView> {
    if pending.len() == 0 {
        seq![]
    } else {
        seq![piece(run, pending_col, pending)]
    }
}

/// Splitting the remaining characters `chars` of `run`, which start at
/// column `col`, with `pending` kept characters collected from `pending_col`.
pub open spec fn split_tail(
    run: RunView,
    chars: Seq<char>,
    col: int,
    pending: Seq<char>,
    pending_col: int,
    covered: spec_fn(char) -> bool,
) -> Seq<RunView>
    decreases chars.len(),
{
    if chars.len() == 0 {
        flush(run, pending, pending_col)
    } else if keeps(chars[0], covered) {
        split_tail(
            run,
            chars.drop_first(),
            col + char_cols(run),
            pending.push(chars[0]),
            if pending.len() == 0 {
                col
            } else {
                pending_col
            },
            covered,
        )
    } else {
        flush(run, pending, pending_col) + seq![piece(run, col, seq![chars[0]])] + split_tail(
            run,
            chars.drop_first(),
            col + char_cols(run),
            seq![],
            pending_col,
            covered,
        )
    }
}

/// A run split so that every uncovered character stands alone, at its own
/// column; maximal stretches of spaces and covered characters stay together.
pub open spec fn split_run_spec(run: RunView, covered: spec_fn(char) -> bool) -> Seq<RunView> {
    if all_kept(run.text, covered) {
        seq![run]
    } else {
        split_tail(run, run.text, run.col as int, seq![], run.col as int, covered)
    }
}

/// All runs of a row, split.
pub open spec fn split_row_spec(row: Seq<RunView>, covered: spec_fn(char) -> bool) -> Seq<
    RunView,
>
    decreases row.len(),
{
    if row.len() == 0 {
        seq![]
    } else {
        split_row_spec(row.drop_last(), covered) + split_run_spec(row.last(), covered)
    }
}

/// A run that holds only spaces and covered characters, or one character.
pub open spec fn isolated(r: RunView, covered: spec_fn(char) -> bool) -> bool {
    all_kept(r.text, covered) || r.text.len() == 1
}

pub open spec fn all_isolated(runs: Seq<RunView>, covered: spec_fn(char) -> bool) -> bool {
    forall|k: int| 0 <= k < runs.len() ==> isolated(#[trigger] runs[k], covered)
}

proof fn lemma_concat_isolated(a: Seq<RunView>, b: Seq<RunView>, covered: spec_fn(char) -> bool)
    requires
        all_isolated(a, covered),
        all_isolated(b, covered),
    ensures
        all_isolated(a + b, covered),
{
    assert forall|k: int| 0 <= k < (a + b).len() implies isolated(#[trigger] (a + b)[k], covered) by {
        if k < a.len() {
            assert((a + b)[k] == a[k]);
        } else {
            assert((a + b)[k] == b[k - a.len()]);
        }
    }
}

proof fn lemma_tail_isolated(
    run: RunView,
    chars: Seq<char>,
    col: int,
    pending: Seq<char>,
    pending_col: int,
    covered: spec_fn(char) -> bool,
)
    requires
        all_kept(pending, covered),
    ensures
        all_isolated(split_tail(run, chars, col, pending, pending_col, covered), covered),
    decreases chars.len(),
{
    let flushed = flush(run, pending, pending_col);
    assert(all_isolated(flushed, covered)) by {
        if pending.len() > 0 {
            assert(flushed[0].text == pending);
        }
    }
    if chars.len() == 0 {
    } else if keeps(chars[0], covered) {
        let next_col = if pending.len() == 0 {
            col
        } else {
            pending_col
        };
        assert(all_kept(pending.push(chars[0]), covered)) by {
            assert forall|i: int| 0 <= i < pending.push(chars[0]).len() implies keeps(
                #[trigger] pending.push(chars[0])[i],
                covered,
            ) by {
                if i < pending.len() {
                    assert(pending.push(chars[0])[i] == pending[i]);
                }
            }
        }
        lemma_tail_isolated(run, chars.drop_first(), col + char_cols(run), pending.push(chars[0]), next_col, covered);
    } else {
        let one = seq![piece(run, col, seq![chars[0]])];
        assert(all_isolated(one, covered)) by {
            assert(one[0].text.len() == 1);
        }
        assert(all_kept(Seq::<char>::empty(), covered));
        lemma_tail_isolated(run, chars.drop_first(), col + char_cols(run), seq![], pending_col, covered);
        let rest = split_tail(run, chars.drop_first(), col + char_cols(run), seq![], pending_col, covered);
        lemma_concat_isolated(flushed, one, covered);
        lemma_concat_isolated(flushed + one, rest, covered);
    }
}

/// Uncovered characters get isolated: once a row is split, every run
/// either holds only spaces and characters the font covers, or is a single
/// character, so a fallback font's advance cannot shift later columns.
pub proof fn uncovered_characters_stand_alone(row: Seq<RunView>, covered: spec_fn(char) -> bool)
    ensures
        all_isolated(split_row_spec(row, covered), covered),
    decreases row.len(),
{
    if row.len() > 0 {
        uncovered_characters_stand_alone(row.drop_last(), covered);
        let r = row.last();
        let split = split_run_spec(r, covered);
        if all_kept(r.text, covered) {
            assert(all_isolated(split, covered)) by {
                assert(split[0] == r);
            }
        } else {
            assert(all_kept(Seq::<char>::empty(), covered));
            lemma_tail_isolated(r, r.text, r.col as int, seq![], r.col as int, covered);
        }
        lemma_concat_isolated(split_row_spec(row.drop_last(), covered), split, covered);
    }
}

/// The characters of the runs, left to right.
pub open spec fn runs_text(runs: Seq<RunView>) -> Seq<char>
    decreases runs.len(),
{
    if runs.len() == 0 {
        seq![]
    } else {
        runs_text(runs.drop_last()) + runs.last().text
    }
}

/// The columns the runs cover in all.
pub open spec fn runs_width(runs: Seq<RunView>) -> int
    decreases runs.len(),
{
    if runs.len() == 0 {
        0
    } else {
        runs_width(runs.drop_last()) + runs.last().width
    }
}

/// `r` looks like `run`: same colours, same style, same cell width.
pub open spec fn same_look(r: RunView, run: RunView) -> bool {
    &&& r.fg == run.fg
    &&& r.bg == run.bg
    &&& r.faint == run.faint
    &&& r.bold == run.bold
    &&& r.italic == run.italic
    &&& r.underline == run.underline
    &&& r.strikethrough == run.strikethrough
    &&& r.wide == run.wide
}

/// The columns `n` characters of `run` take.
pub open spec fn cols_for(run: RunView, n: int) -> int {
    if run.wide {
        2 * n
    } else {
        n
    }
}

proof fn lemma_cols_for(run: RunView, n: int)
    ensures
        n * char_cols(run) == cols_for(run, n),
{
}

/// The runs are pieces of `run`, non-empty and laid side by side from
/// column `col`: each starts where the characters before it end.
pub open spec fn laid_out(runs: Seq<RunView>, run: RunView, col: int) -> bool {
    forall|k: int|
        0 <= k < runs.len() ==> {
            &&& (#[trigger] runs[k]).col == col + cols_for(run, runs_text(runs.take(k)).len() as int)
            &&& runs[k].width == cols_for(run, runs[k].text.len() as int)
            &&& runs[k].text.len() > 0
            &&& same_look(runs[k], run)
        }
}

/// A run as the emulator produces it: non-empty, each character taking
/// the run's cell width.
pub open spec fn well_formed_run(r: RunView) -> bool {
    &&& r.text.len() > 0
    &&& r.width == r.text.len() * char_cols(r)
}

proof fn lemma_runs_text_concat(a: Seq<RunView>, b: Seq<RunView>)
    ensures
        runs_text(a + b) == runs_text(a) + runs_text(b),
        runs_width(a + b) == runs_width(a) + runs_width(b),
    decreases b.len(),
{
    if b.len() == 0 {
        assert(a + b =~= a);
        assert(runs_text(a) + Seq::<char>::empty() =~= runs_text(a));
    } else {
        lemma_runs_text_concat(a, b.drop_last());
        assert((a + b).drop_last() =~= a + b.drop_last());
        assert((a + b).last() == b.last());
        assert(runs_text(a) + runs_text(b.drop_last()) + b.last().text =~= runs_text(a) + (runs_text(
            b.drop_last(),
        ) + b.last().text));
    }
}

proof fn lemma_laid_concat(a: Seq<RunView>, b: Seq<RunView>, run: RunView, col: int)
    requires
        laid_out(a, run, col),
        laid_out(b, run, col + cols_for(run, runs_text(a).len() as int)),
    ensures
        laid_out(a + b, run, col),
{
    assert forall|k: int| 0 <= k < (a + b).len() implies {
        &&& (#[trigger] (a + b)[k]).col == col + cols_for(run, runs_text((a + b).take(k)).len() as int)
        &&& (a + b)[k].width == cols_for(run, (a + b)[k].text.len() as int)
        &&& (a + b)[k].text.len() > 0
        &&& same_look((a + b)[k], run)
    } by {
        if k < a.len() {
            assert((a + b)[k] == a[k]);
            assert((a + b).take(k) =~= a.take(k));
        } else {
            let j = k - a.len();
            assert((a + b)[k] == b[j]);
            assert((a + b).take(k) =~= a + b.take(j));
            lemma_runs_text_concat(a, b.take(j));
        }
    }
}

proof fn lemma_one_laid(run: RunView, col: int, text: Seq<char>)
    requires
        text.len() > 0,
        0 <= col,
        col + cols_for(run, text.len() as int) <= usize::MAX,
    ensures
        runs_text(seq![piece(run, col, text)]) == text,
        laid_out(seq![piece(run, col, text)], run, col),
{
    let one = seq![piece(run, col, text)];
    lemma_cols_for(run, text.len() as int);
    assert(one.drop_last() =~= Seq::<RunView>::empty());
    assert(runs_text(Seq::<RunView>::empty()) == Seq::<char>::empty());
    assert(Seq::<char>::empty() + text =~= text);
    assert(one.take(0) =~= Seq::<RunView>::empty());
}

#[verifier::spinoff_prover]
#[verifier::rlimit(40)]
proof fn lemma_tail_laid_out(
    run: RunView,
    chars: Seq<char>,
    col: int,
    pending: Seq<char>,
    pending_col: int,
    covered: spec_fn(char) -> bool,
)
    requires
        col - cols_for(run, pending.len() as int) >= 0,
        col + cols_for(run, chars.len() as int) <= usize::MAX,
        pending.len() > 0 ==> pending_col == col - cols_for(run, pending.len() as int),
    ensures
        runs_text(split_tail(run, chars, col, pending, pending_col, covered)) == pending + chars,
        laid_out(
            split_tail(run, chars, col, pending, pending_col, covered),
            run,
            col - cols_for(run, pending.len() as int),
        ),
    decreases chars.len(),
{
    let c = char_cols(run);
    let start = col - cols_for(run, pending.len() as int);
    let flushed = flush(run, pending, pending_col);
    assert(runs_text(flushed) == pending && laid_out(flushed, run, start)) by {
        if pending.len() > 0 {
            lemma_one_laid(run, pending_col, pending);
        } else {
            assert(flushed =~= Seq::<RunView>::empty());
            assert(runs_text(Seq::<RunView>::empty()) == Seq::<char>::empty());
            assert(pending =~= Seq::<char>::empty());
        }
    }
    if chars.len() == 0 {
        assert(pending + chars =~= pending);
    } else if keeps(chars[0], covered) {
        let next_col = if pending.len() == 0 {
            col
        } else {
            pending_col
        };
        lemma_tail_laid_out(run, chars.drop_first(), col + c, pending.push(chars[0]), next_col, covered);
        assert(pending.push(chars[0]) + chars.drop_first() =~= pending + chars);
    } else {
        lemma_one_laid(run, col, seq![chars[0]]);
        let one = seq![piece(run, col, seq![chars[0]])];
        lemma_tail_laid_out(run, chars.drop_first(), col + c, seq![], pending_col, covered);
        let rest = split_tail(run, chars.drop_first(), col + c, seq![], pending_col, covered);
        lemma_laid_concat(flushed, one, run, start);
        lemma_runs_text_concat(flushed, one);
        lemma_laid_concat(flushed + one, rest, run, start);
        lemma_runs_text_concat(flushed + one, rest);
        assert(pending + seq![chars[0]] + chars.drop_first() =~= pending + chars);
    }
}

proof fn lemma_laid_width(runs: Seq<RunView>, run: RunView, col: int)
    requires
        laid_out(runs, run, col),
    ensures
        runs_width(runs) == cols_for(run, runs_text(runs).len() as int),
    decreases runs.len(),
{
    if runs.len() > 0 {
        assert(laid_out(runs.drop_last(), run, col)) by {
            assert forall|k: int| 0 <= k < runs.drop_last().len() implies {
                &&& (#[trigger] runs.drop_last()[k]).col == col + cols_for(
                    run,
                    runs_text(runs.drop_last().take(k)).len() as int,
                )
                &&& runs.drop_last()[k].width == cols_for(run, runs.drop_last()[k].text.len() as int)
                &&& runs.drop_last()[k].text.len() > 0
                &&& same_look(runs.drop_last()[k], run)
            } by {
                assert(runs.drop_last()[k] == runs[k]);
                assert(runs.drop_last().take(k) =~= runs.take(k));
            }
        }
        lemma_laid_width(runs.drop_last(), run, col);
        assert(runs[runs.len() - 1] == runs.last());
    }
}

/// Splitting a run keeps what it shows where it showed it: the pieces spell
/// the run's text, each is non-empty and styled as the run, each starts at
/// the run's column plus the columns of the characters before it, and the
/// pieces cover exactly the run's columns.
pub proof fn splitting_keeps_the_layout(run: RunView, covered: spec_fn(char) -> bool)
    requires
        well_formed_run(run),
        run_fits(run),
    ensures
        runs_text(split_run_spec(run, covered)) == run.text,
        laid_out(split_run_spec(run, covered), run, run.col as int),
        runs_width(split_run_spec(run, covered)) == run.width,
{
    let out = split_run_spec(run, covered);
    lemma_cols_for(run, run.text.len() as int);
    if all_kept(run.text, covered) {
        assert(out == seq![run]);
        assert(piece(run, run.col as int, run.text) == run);
        lemma_one_laid(run, run.col as int, run.text);
    } else {
        lemma_tail_laid_out(run, run.text, run.col as int, seq![], run.col as int, covered);
        assert(seq![] + run.text =~= run.text);
    }
    lemma_laid_width(out, run, run.col as int);
}

/// Splitting a row keeps its text and its total width.
pub proof fn splitting_keeps_each_row(row: Seq<RunView>, covered: spec_fn(char) -> bool)
    requires
        forall|k: int| 0 <= k < row.len() ==> well_formed_run(#[trigger] row[k]) && run_fits(row[k]),
    ensures
        runs_text(split_row_spec(row, covered)) == runs_text(row),
        runs_width(split_row_spec(row, covered)) == runs_width(row),
    decreases row.len(),
{
    if row.len() > 0 {
        assert forall|k: int| 0 <= k < row.drop_last().len() implies well_formed_run(
            #[trigger] row.drop_last()[k],
        ) && run_fits(row.drop_last()[k]) by {
            assert(row.drop_last()[k] == row[k]);
        }
        splitting_keeps_each_row(row.drop_last(), covered);
        assert(well_formed_run(row[row.len() - 1]) && run_fits(row[row.len() - 1]));
        splitting_keeps_the_layout(row.last(), covered);
        lemma_runs_text_concat(split_row_spec(row.drop_last(), covered), split_run_spec(row.last(), covered));
    }
}

/// A run as a screen holds it before splitting: non-empty, each character
/// taking the run's cell width, within the column range, and a wide run
/// holding one character.
pub open spec fn source_run(r: RunView) -> bool {
    &&& well_formed_run(r)
    &&& run_fits(r)
    &&& (r.wide ==> r.text.len() == 1)
}

proof fn lemma_text_prefix(rs: Seq<RunView>, k: int)
    requires
        0 <= k < rs.len(),
    ensures
        runs_text(rs.take(k)).len() + rs[k].text.len() <= runs_text(rs).len(),
{
    assert(rs =~= rs.take(k + 1) + rs.skip(k + 1));
    lemma_runs_text_concat(rs.take(k + 1), rs.skip(k + 1));
    assert(rs.take(k + 1).drop_last() =~= rs.take(k));
    assert(rs.take(k + 1).last() == rs[k]);
}

proof fn lemma_pieces_are_source_runs(run: RunView, covered: spec_fn(char) -> bool)
    requires
        source_run(run),
    ensures
        forall|j: int|
            0 <= j < split_run_spec(run, covered).len() ==> source_run(#[trigger] split_run_spec(run, covered)[j]),
{
    let out = split_run_spec(run, covered);
    splitting_keeps_the_layout(run, covered);
    lemma_cols_for(run, run.text.len() as int);
    assert forall|j: int| 0 <= j < out.len() implies source_run(#[trigger] out[j]) by {
        let p = out[j];
        lemma_text_prefix(out, j);
        let off = runs_text(out.take(j)).len() as int;
        assert(p.col == run.col + cols_for(run, off));
        assert(p.wide == run.wide);
        lemma_cols_for(p, p.text.len() as int);
        assert(char_cols(p) == char_cols(run));
    }
}

/// `p` is one of the pieces that splitting some run of `row` gives.
pub open spec fn piece_of(row: Seq<RunView>, covered: spec_fn(char) -> bool, p: RunView) -> bool {
    exists|m: int, j: int|
        0 <= m < row.len() && 0 <= j < split_run_spec(row[m], covered).len() && #[trigger] split_run_spec(
            row[m],
            covered,
        )[j] == p
}

proof fn lemma_row_pieces(row: Seq<RunView>, covered: spec_fn(char) -> bool)
    ensures
        forall|x: int|
            0 <= x < split_row_spec(row, covered).len() ==> piece_of(row, covered, #[trigger] split_row_spec(row, covered)[x]),
    decreases row.len(),
{
    if row.len() > 0 {
        lemma_row_pieces(row.drop_last(), covered);
        let a = split_row_spec(row.drop_last(), covered);
        let b = split_run_spec(row.last(), covered);
        assert(split_row_spec(row, covered) == a + b);
        assert forall|x: int| 0 <= x < (a + b).len() implies piece_of(row, covered, #[trigger] (a + b)[x]) by {
            if x < a.len() {
                assert(piece_of(row.drop_last(), covered, a[x]));
                let (m, j) = choose|m: int, j: int|
                    0 <= m < row.drop_last().len() && 0 <= j < split_run_spec(row.drop_last()[m], covered).len()
                        && #[trigger] split_run_spec(row.drop_last()[m], covered)[j] == a[x];
                assert(row.drop_last()[m] == row[m]);
                assert((a + b)[x] == a[x]);
                assert(split_run_spec(row[m], covered)[j] == (a + b)[x]);
            } else {
                let m = row.len() - 1;
                let j = x - a.len();
                assert((a + b)[x] == b[j]);
                assert(row[m] == row.last());
                assert(split_run_spec(row[m], covered)[j] == (a + b)[x]);
            }
        }
    }
}

proof fn lemma_kept_row_unchanged(row: Seq<RunView>, covered: spec_fn(char) -> bool)
    requires
        forall|k: int| 0 <= k < row.len() ==> all_kept(#[trigger] row[k].text, covered),
    ensures
        split_row_spec(row, covered) == row,
    decreases row.len(),
{
    if row.len() > 0 {
        assert forall|k: int| 0 <= k < row.drop_last().len() implies all_kept(#[trigger] row.drop_last()[k].text, covered) by {
            assert(row.drop_last()[k] == row[k]);
        }
        lemma_kept_row_unchanged(row.drop_last(), covered);
        assert(all_kept(row[row.len() - 1].text, covered));
        assert(row.drop_last() + seq![row.last()] =~= row);
    }
}

/// What splitting uncovered characters does to a screen whose runs are as
/// the emulator made them: the row count stays; each row keeps its text
/// and total width; each new run is a piece of one source run, styled as
/// it and placed at its column plus the columns of the characters before
/// it; a run holding an uncovered character holds just that character; a
/// row with only spaces and covered characters is left as it was; and the
/// new runs are again as the emulator would make them.
pub proof fn split_uncovered_law(rows: Seq<Seq<RunView>>, covered: spec_fn(char) -> bool)
    requires
        forall|i: int, k: int| 0 <= i < rows.len() && 0 <= k < rows[i].len() ==> source_run(#[trigger] rows[i][k]),
    ensures
        rows.map_values(|row: Seq<RunView>| split_row_spec(row, covered)).len() == rows.len(),
        forall|i: int|
            0 <= i < rows.len() ==> {
                let out = #[trigger] split_row_spec(rows[i], covered);
                &&& runs_text(out) == runs_text(rows[i])
                &&& runs_width(out) == runs_width(rows[i])
                &&& all_isolated(out, covered)
                &&& (forall|k: int| 0 <= k < rows[i].len() ==> all_kept(#[trigger] rows[i][k].text, covered))
                    ==> out == rows[i]
                &&& forall|x: int| 0 <= x < out.len() ==> source_run(#[trigger] out[x])
            },
        forall|i: int, k: int|
            0 <= i < rows.len() && 0 <= k < rows[i].len() ==> laid_out(
                split_run_spec(#[trigger] rows[i][k], covered),
                rows[i][k],
                rows[i][k].col as int,
            ),
{
    assert forall|i: int, k: int| 0 <= i < rows.len() && 0 <= k < rows[i].len() implies laid_out(
        split_run_spec(#[trigger] rows[i][k], covered),
        rows[i][k],
        rows[i][k].col as int,
    ) by {
        splitting_keeps_the_layout(rows[i][k], covered);
    }
    assert forall|i: int| 0 <= i < rows.len() implies {
        let out = #[trigger] split_row_spec(rows[i], covered);
        &&& runs_text(out) == runs_text(rows[i])
        &&& runs_width(out) == runs_width(rows[i])
        &&& all_isolated(out, covered)
        &&& (forall|k: int| 0 <= k < rows[i].len() ==> all_kept(#[trigger] rows[i][k].text, covered))
            ==> out == rows[i]
        &&& forall|x: int| 0 <= x < out.len() ==> source_run(#[trigger] out[x])
    } by {
        let row = rows[i];
        let out = split_row_spec(row, covered);
        assert forall|k: int| 0 <= k < row.len() implies well_formed_run(#[trigger] row[k]) && run_fits(row[k]) by {
            assert(source_run(rows[i][k]));
        }
        splitting_keeps_each_row(row, covered);
        uncovered_characters_stand_alone(row, covered);
        if forall|k: int| 0 <= k < row.len() ==> all_kept(#[trigger] row[k].text, covered) {
            lemma_kept_row_unchanged(row, covered);
        }
        lemma_row_pieces(row, covered);
        assert forall|x: int| 0 <= x < out.len() implies source_run(#[trigger] out[x]) by {
            assert(piece_of(row, covered, out[x]));
            let (m, j) = choose|m: int, j: int|
                0 <= m < row.len() && 0 <= j < split_run_spec(row[m], covered).len() && #[trigger] split_run_spec(
                    row[m],
                    covered,
                )[j] == out[x];
            assert(source_run(rows[i][m]));
            lemma_pieces_are_source_runs(row[m], covered);
        }
    }
}

/// What a deterministic character predicate answers.
pub open spec fn answers<F: Fn(char) -> bool>(f: F) -> spec_fn(char) -> bool {
    |c: char| f.ensures((c,), true)
}

/// `f` can be called on any character and always answers the same.
pub open spec fn deterministic_predicate<F: Fn(char) -> bool>(f: F) -> bool {
    &&& forall|c: char| f.requires((c,))
    &&& forall|c: char, a: bool, b: bool|
        f.ensures((c,), a) && f.ensures((c,), b) ==> a == b
}

fn ask<F: Fn(char) -> bool>(f: &F, c: char) -> (b: bool)
    requires
        deterministic_predicate(*f),
    ensures
        b == answers(*f)(c),
{
    let b = f(c);
    proof {
        if !b {
            if f.ensures((c,), true) {
                assert(false == true);
            }
        }
    }
    b
}

fn all_chars_kept<F: Fn(char) -> bool>(chars: &Vec<char>, covered: &F) -> (b: bool)
    requires
        deterministic_predicate(*covered),
    ensures
        b == all_kept(chars@, answers(*covered)),
{
    let mut i: usize = 0;
    while i < chars.len()
        invariant
            i <= chars@.len(),
            deterministic_predicate(*covered),
            forall|j: int| 0 <= j < i ==> keeps(#[trigger] chars@[j], answers(*covered)),
        decreases chars@.len() - i,
    {
        let c = chars[i];
        if c != ' ' && !ask(covered, c) {
            assert(!keeps(chars@[i as int], answers(*covered)));
            return false;
        }
        i += 1;
    }
    true
}

fn make_piece(run: &StyledRun, col: usize, text: &Vec<char>) -> (p: StyledRun)
    requires
        col + text@.len() * char_cols(run@) <= usize::MAX,
    ensures
        p@ == piece(run@, col as int, text@),
{
    let w: usize = if run.wide {
        2
    } else {
        1
    };
    assert(text@.len() * w <= usize::MAX) by (nonlinear_arith)
        requires
            col + text@.len() * w <= usize::MAX,
    ;
    StyledRun {
        col,
        width: text.len() * w,
        text: string_from_chars(text.as_slice()),
        fg: run.fg,
        bg: run.bg,
        faint: run.faint,
        bold: run.bold,
        italic: run.italic,
        underline: run.underline,
        strikethrough: run.strikethrough,
        wide: run.wide,
    }
}

/// Split `run`, appending the pieces to `out`.
pub fn split_run<F: Fn(char) -> bool>(run: &StyledRun, covered: &F, out: &mut Vec<StyledRun>)
    requires
        deterministic_predicate(*covered),
        run.col + run.text@.len() * char_cols(run@) <= usize::MAX,
    ensures
        final(out)@.map_values(|r: StyledRun| r@) == old(out)@.map_values(|r: StyledRun| r@)
            + split_run_spec(run@, answers(*covered)),
{
    let ghost cov = answers(*covered);
    let ghost out0 = old(out)@.map_values(|r: StyledRun| r@);
    let chars = to_chars(run.text.as_str());
    if all_chars_kept(&chars, covered) {
        out.push(copy_run(run));
        assert(out@.map_values(|r: StyledRun| r@) =~= out0 + seq![run@]);
        return;
    }
    let w: usize = if run.wide {
        2
    } else {
        1
    };
    let mut col: usize = run.col;
    let mut pending: Vec<char> = Vec::new();
    let mut pending_col: usize = run.col;
    let mut i: usize = 0;
    assert(chars@.skip(0) =~= chars@);
    while i < chars.len()
        invariant
            deterministic_predicate(*covered),
            cov == answers(*covered),
            chars@ == run.text@,
            w == char_cols(run@),
            i <= chars@.len(),
            col == run.col + i * w,
            run.col + chars@.len() * w <= usize::MAX,
            pending@.len() <= i,
            pending@.len() > 0 ==> pending_col + pending@.len() * w == col,
            out@.map_values(|r: StyledRun| r@) + split_tail(
                run@,
                chars@.skip(i as int),
                col as int,
                pending@,
                pending_col as int,
                cov,
            ) == out0 + split_tail(run@, chars@, run.col as int, seq![], run.col as int, cov),
        decreases chars@.len() - i,
    {
        let ghost before = out@.map_values(|r: StyledRun| r@);
        let ghost rest = chars@.skip(i as int);
        assert(rest[0] == chars@[i as int]);
        assert(rest.drop_first() =~= chars@.skip(i + 1));
        assert(run.col + (i + 1) * w <= run.col + chars@.len() * w) by (nonlinear_arith)
            requires
                i + 1 <= chars@.len(),
                w >= 1,
        ;
        assert(col + w == run.col + (i + 1) * w) by (nonlinear_arith)
            requires
                col == run.col + i * w,
        ;
        let c = chars[i];
        let ghost pend = pending@;
        let ghost pcol = pending_col as int;
        if c == ' ' || ask(covered, c) {
            assert(keeps(rest[0], cov));
            if pending.len() == 0 {
                pending_col = col;
            }
            pending.push(c);
            proof {
                assert(pending@ == pend.push(c));
                if pend.len() > 0 {
                    assert(pcol + (pend.len() + 1) * w == pcol + pend.len() * w + w) by (
                    nonlinear_arith);
                }
            }
        } else {
            assert(!keeps(rest[0], cov));
            if pending.len() > 0 {
                out.push(make_piece(run, pending_col, &pending));
                pending = Vec::new();
            }
            let single = vec![c];
            assert(single@ =~= seq![c]);
            out.push(make_piece(run, col, &single));
            assert(out@.map_values(|r: StyledRun| r@) =~= before + flush(run@, pend, pcol) + seq![
                piece(run@, col as int, seq![c]),
            ]);
            assert(pending@ =~= Seq::<char>::empty());
        }
        col = col + w;
        i += 1;
    }
    assert(chars@.skip(i as int) =~= Seq::<char>::empty());
    let ghost before = out@.map_values(|r: StyledRun| r@);
    if pending.len() > 0 {
        out.push(make_piece(run, pending_col, &pending));
    }
    assert(out@.map_values(|r: StyledRun| r@) =~= before + flush(
        run@,
        pending@,
        pending_col as int,
    ));
}


proof fn lemma_split_row_kept(row: Seq<RunView>, covered: spec_fn(char) -> bool)
    requires
        forall|k: int| 0 <= k < row.len() ==> all_kept(#[trigger] row[k].text, covered),
    ensures
        split_row_spec(row, covered) == row,
    decreases row.len(),
{
    if row.len() > 0 {
        lemma_split_row_kept(row.drop_last(), covered);
        assert(all_kept(row[row.len() - 1].text, covered));
        assert(row.drop_last().push(row.last()) =~= row);
    }
}

/// Room for every run's characters to advance their columns in a `usize`.
pub open spec fn run_fits(r: RunView) -> bool {
    r.col + r.text.len() * char_cols(r) <= usize::MAX
}

fn row_all_kept<F: Fn(char) -> bool>(row: &Vec<StyledRun>, covered: &F) -> (b: bool)
    requires
        deterministic_predicate(*covered),
    ensures
        b == (forall|k: int| 0 <= k < row@.len() ==> all_kept(#[trigger] row@[k]@.text, answers(*covered))),
{
    let mut k: usize = 0;
    while k < row.len()
        invariant
            k <= row@.len(),
            deterministic_predicate(*covered),
            forall|j: int| 0 <= j < k ==> all_kept(#[trigger] row@[j]@.text, answers(*covered)),
        decreases row@.len() - k,
    {
        let chars = to_chars(row[k].text.as_str());
        assert(chars@ == row@[k as int]@.text);
        if !all_chars_kept(&chars, covered) {
            return false;
        }
        k += 1;
    }
    true
}

fn split_row<F: Fn(char) -> bool>(row: &Vec<StyledRun>, covered: &F) -> (out: Vec<StyledRun>)
    requires
        deterministic_predicate(*covered),
        forall|k: int| 0 <= k < row@.len() ==> run_fits(#[trigger] row@[k]@),
    ensures
        out@.map_values(|r: StyledRun| r@) == split_row_spec(
            row@.map_values(|r: StyledRun| r@),
            answers(*covered),
        ),
{
    let ghost rv = row@.map_values(|r: StyledRun| r@);
    let mut out: Vec<StyledRun> = Vec::new();
    if row_all_kept(row, covered) {
        let mut k: usize = 0;
        while k < row.len()
            invariant
                k <= row@.len(),
                rv == row@.map_values(|r: StyledRun| r@),
                out@.map_values(|r: StyledRun| r@) == rv.take(k as int),
            decreases row@.len() - k,
        {
            let ghost before = out@.map_values(|r: StyledRun| r@);
            let c = copy_run(&row[k]);
            out.push(c);
            assert(out@.map_values(|r: StyledRun| r@) =~= before.push(c@));
            k += 1;
            assert(rv.take(k as int) =~= rv.take(k - 1).push(rv[k - 1]));
        }
        proof {
            assert(rv.take(k as int) =~= rv);
            assert forall|j: int| 0 <= j < rv.len() implies all_kept(
                #[trigger] rv[j].text,
                answers(*covered),
            ) by {
                assert(rv[j] == row@[j]@);
            }
            lemma_split_row_kept(rv, answers(*covered));
        }
        return out;
    }
    let mut k: usize = 0;
    while k < row.len()
        invariant
            k <= row@.len(),
            deterministic_predicate(*covered),
            rv == row@.map_values(|r: StyledRun| r@),
            forall|j: int| 0 <= j < row@.len() ==> run_fits(#[trigger] row@[j]@),
            out@.map_values(|r: StyledRun| r@) == split_row_spec(rv.take(k as int), answers(*covered)),
        decreases row@.len() - k,
    {
        assert(run_fits(row@[k as int]@));
        split_run(&row[k], covered, &mut out);
        k += 1;
        assert(rv.take(k as int).drop_last() =~= rv.take(k - 1));
    }
    assert(rv.take(k as int) =~= rv);
    out
}

impl Screen {
    /// Split runs so every char the embedded font does not cover (emoji)
    /// gets its own explicitly-positioned run: fallback fonts advance at
    /// their own widths, and per-run x coordinates stop that drift from
    /// shifting later columns.
    pub fn split_uncovered<F: Fn(char) -> bool>(&mut self, covered: F)
        requires
            deterministic_predicate(covered),
            forall|i: int, k: int|
                0 <= i < old(self).rows@.len() && 0 <= k < old(self).rows@[i]@.len() ==> run_fits(
                    #[trigger] old(self).rows@[i]@[k]@,
                ),
        ensures
            final(self).cols == old(self).cols,
            rows_view(final(self).rows@) == rows_view(old(self).rows@).map_values(
                |row: Seq<RunView>| split_row_spec(row, answers(covered)),
            ),
    {
        let ghost old_rows = rows_view(self.rows@);
        let mut new_rows: Vec<Vec<StyledRun>> = Vec::new();
        let mut i: usize = 0;
        while i < self.rows.len()
            invariant
                i <= self.rows@.len(),
                deterministic_predicate(covered),
                old_rows == rows_view(self.rows@),
                self.rows@ == old(self).rows@,
                forall|a: int, k: int|
                    0 <= a < self.rows@.len() && 0 <= k < self.rows@[a]@.len() ==> run_fits(
                        #[trigger] self.rows@[a]@[k]@,
                    ),
                new_rows@.len() == i,
                forall|j: int| 0 <= j < i ==> (#[trigger] new_rows@[j])@.map_values(|r: StyledRun| r@)
                    == split_row_spec(old_rows[j], answers(covered)),
            decreases self.rows@.len() - i,
        {
            assert forall|k: int| 0 <= k < self.rows@[i as int]@.len() implies run_fits(
                #[trigger] self.rows@[i as int]@[k]@,
            ) by {}
            let row = split_row(&self.rows[i], &covered);
            new_rows.push(row);
            i += 1;
        }
        self.rows = new_rows;
        assert(rows_view(self.rows@) =~= old_rows.map_values(
            |row: Seq<RunView>| split_row_spec(row, answers(covered)),
        ));
    }
}

} // verus!
