//! Replay decisions: the canvas a recording needs and when two snapshots
//! are the same frame.
use vstd::prelude::*;

use crate::cast::{EventData, EventView};
use crate::edit::views;
use crate::term::screen::{rows_view, RunView, Screen, StyledRun};
use crate::text::str_eq;

verus! {

/// Rows up to the last non-empty one; empty rows render nothing.
pub open spec fn visible_rows_spec(rows: Seq<Seq<RunView>>) -> Seq<Seq<RunView>>
    decreases rows.len(),
{
    if rows.len() > 0 && rows.last().len() == 0 {
        visible_rows_spec(rows.drop_last())
    } else {
        rows
    }
}

proof fn lemma_visible_prefix(rows: Seq<Seq<RunView>>)
    ensures
        visible_rows_spec(rows) == rows.take(visible_rows_spec(rows).len() as int),
        visible_rows_spec(rows).len() <= rows.len(),
    decreases rows.len(),
{
    if rows.len() > 0 && rows.last().len() == 0 {
        lemma_visible_prefix(rows.drop_last());
        let n = visible_rows_spec(rows).len() as int;
        assert(rows.drop_last().take(n) =~= rows.take(n));
    } else {
        assert(rows.take(rows.len() as int) =~= rows);
    }
}

/// How many leading rows of the screen are visible: everything up to the
/// last non-empty row.
pub fn visible_rows(screen: &Screen) -> (n: usize)
    ensures
        n <= screen.rows@.len(),
        rows_view(screen.rows@).take(n as int) == visible_rows_spec(rows_view(screen.rows@)),
{
    let ghost all = rows_view(screen.rows@);
    let mut n = screen.rows.len();
    assert(all.take(n as int) =~= all);
    while n > 0 && screen.rows[n - 1].len() == 0
        invariant
            n <= screen.rows@.len(),
            all == rows_view(screen.rows@),
            visible_rows_spec(all.take(n as int)) == visible_rows_spec(all),
        decreases n,
    {
        proof {
            assert(all.take(n as int).last() == all[n - 1]);
            assert(all[n - 1].len() == screen.rows@[n - 1]@.len());
            assert(all.take(n as int).drop_last() =~= all.take(n - 1));
        }
        n -= 1;
    }
    proof {
        let t = all.take(n as int);
        if n > 0 {
            assert(t.last() == all[n - 1]);
            assert(all[n - 1].len() == screen.rows@[n - 1]@.len());
        }
        assert(visible_rows_spec(t) == t);
    }
    n
}

fn same_run(a: &StyledRun, b: &StyledRun) -> (r: bool)
    ensures
        r == (a@ == b@),
{
    let same_text = str_eq(a.text.as_str(), b.text.as_str());
    let r = same_text && a.col == b.col && a.width == b.width && a.fg == b.fg && a.bg == b.bg
        && a.faint == b.faint && a.bold == b.bold && a.italic == b.italic && a.underline
        == b.underline && a.strikethrough == b.strikethrough && a.wide == b.wide;
    r
}

fn same_row(a: &Vec<StyledRun>, b: &Vec<StyledRun>) -> (r: bool)
    ensures
        r == (a@.len() == b@.len() && forall|j: int| 0 <= j < a@.len() ==> #[trigger] a@[j]@ == b@[j]@),
{
    if a.len() != b.len() {
        return false;
    }
    let mut i: usize = 0;
    while i < a.len()
        invariant
            i <= a@.len(),
            a@.len() == b@.len(),
            forall|j: int| 0 <= j < i ==> #[trigger] a@[j]@ == b@[j]@,
        decreases a@.len() - i,
    {
        if !same_run(&a[i], &b[i]) {
            return false;
        }
        i += 1;
    }
    true
}

/// Whether two snapshots render identically: the same visible rows and the
/// same cursor. Whole-screen equality is too strict: a resize alters the
/// column count and appends empty rows, but the canvas is fixed at the
/// largest grid and empty rows emit nothing.
pub fn same_frame(
    prev: &Screen,
    prev_cursor: Option<(usize, usize)>,
    next: &Screen,
    next_cursor: Option<(usize, usize)>,
) -> (r: bool)
    ensures
        r == (visible_rows_spec(rows_view(prev.rows@)) == visible_rows_spec(rows_view(next.rows@))
            && prev_cursor == next_cursor),
{
    let ghost pv = rows_view(prev.rows@);
    let ghost nv = rows_view(next.rows@);
    let n = visible_rows(prev);
    let m = visible_rows(next);
    if n != m {
        assert(pv.take(n as int).len() != nv.take(m as int).len());
        assert(visible_rows_spec(pv) != visible_rows_spec(nv));
        return false;
    }
    let mut i: usize = 0;
    while i < n
        invariant
            i <= n,
            n == m,
            n <= prev.rows@.len(),
            n <= next.rows@.len(),
            pv == rows_view(prev.rows@),
            nv == rows_view(next.rows@),
            pv.take(n as int) == visible_rows_spec(pv),
            nv.take(m as int) == visible_rows_spec(nv),
            forall|j: int| 0 <= j < i ==> pv[j] == nv[j],
        decreases n - i,
    {
        let same = same_row(&prev.rows[i], &next.rows[i]);
        proof {
            let a = prev.rows@[i as int]@;
            let b = next.rows@[i as int]@;
            assert(pv[i as int] == a.map_values(|r: StyledRun| r@));
            assert(nv[i as int] == b.map_values(|r: StyledRun| r@));
            if same {
                assert(pv[i as int] =~= nv[i as int]);
            } else if a.len() == b.len() {
                let j = choose|j: int| 0 <= j < a.len() && a[j]@ != b[j]@;
                assert(pv[i as int][j] != nv[i as int][j]);
            }
        }
        if !same {
            assert(pv.take(n as int)[i as int] != nv.take(m as int)[i as int]);
            assert(visible_rows_spec(pv) != visible_rows_spec(nv));
            return false;
        }
        i += 1;
    }
    assert(pv.take(n as int) =~= nv.take(m as int));
    assert(visible_rows_spec(pv) == visible_rows_spec(nv));
    let same_cursor = match (prev_cursor, next_cursor) {
        (Some((a, b)), Some((c, d))) => a == c && b == d,
        (None, None) => true,
        _ => false,
    };
    same_cursor
}

/// The largest grid among the header size and every resize event.
pub open spec fn canvas_spec(width: usize, height: usize, events: Seq<EventView>) -> (usize, usize)
    decreases events.len(),
{
    if events.len() == 0 {
        (width, height)
    } else {
        let (w, h) = canvas_spec(width, height, events.drop_last());
        match events.last() {
            EventView::Resize { cols, rows } => (
                if cols > w {
                    cols
                } else {
                    w
                },
                if rows > h {
                    rows
                } else {
                    h
                },
            ),
            _ => (w, h),
        }
    }
}

/// The columns a resize event sets.
pub open spec fn resize_cols(e: EventView) -> Option<usize> {
    match e {
        EventView::Resize { cols, .. } => Some(cols),
        _ => None,
    }
}

/// The rows a resize event sets.
pub open spec fn resize_rows(e: EventView) -> Option<usize> {
    match e {
        EventView::Resize { rows, .. } => Some(rows),
        _ => None,
    }
}

/// The canvas holds every grid the recording uses: it is at least the
/// header's size and every resize's size, and each of its dimensions is
/// one the recording actually uses.
pub proof fn canvas_holds_every_grid(width: usize, height: usize, events: Seq<EventView>)
    ensures
        canvas_spec(width, height, events).0 >= width,
        canvas_spec(width, height, events).1 >= height,
        forall|k: int|
            0 <= k < events.len() && #[trigger] resize_cols(events[k]) is Some ==> resize_cols(
                events[k],
            )->0 <= canvas_spec(width, height, events).0,
        forall|k: int|
            0 <= k < events.len() && #[trigger] resize_rows(events[k]) is Some ==> resize_rows(
                events[k],
            )->0 <= canvas_spec(width, height, events).1,
        canvas_spec(width, height, events).0 == width || exists|k: int|
            0 <= k < events.len() && #[trigger] resize_cols(events[k]) == Some(
                canvas_spec(width, height, events).0,
            ),
        canvas_spec(width, height, events).1 == height || exists|k: int|
            0 <= k < events.len() && #[trigger] resize_rows(events[k]) == Some(
                canvas_spec(width, height, events).1,
            ),
    decreases events.len(),
{
    if events.len() > 0 {
        let prev = events.drop_last();
        canvas_holds_every_grid(width, height, prev);
        let (w, h) = canvas_spec(width, height, prev);
        let (cw, ch) = canvas_spec(width, height, events);
        let last = events.len() - 1;
        assert(events[last] == events.last());
        assert forall|k: int| 0 <= k < events.len() && #[trigger] resize_cols(events[k]) is Some implies resize_cols(
            events[k],
        )->0 <= cw by {
            if k < prev.len() {
                assert(events[k] == prev[k]);
                assert(resize_cols(prev[k]) is Some);
            }
        }
        assert forall|k: int| 0 <= k < events.len() && #[trigger] resize_rows(events[k]) is Some implies resize_rows(
            events[k],
        )->0 <= ch by {
            if k < prev.len() {
                assert(events[k] == prev[k]);
                assert(resize_rows(prev[k]) is Some);
            }
        }
        if cw != width {
            if cw == w && w != width {
                let k = choose|k: int| 0 <= k < prev.len() && #[trigger] resize_cols(prev[k]) == Some(w);
                assert(events[k] == prev[k]);
                assert(resize_cols(events[k]) == Some(cw));
            } else {
                assert(resize_cols(events[last]) == Some(cw));
            }
        }
        if ch != height {
            if ch == h && h != height {
                let k = choose|k: int| 0 <= k < prev.len() && #[trigger] resize_rows(prev[k]) == Some(h);
                assert(events[k] == prev[k]);
                assert(resize_rows(events[k]) == Some(ch));
            } else {
                assert(resize_rows(events[last]) == Some(ch));
            }
        }
    }
}

/// The canvas a replay needs: the largest grid the recording ever uses
/// (resizes render top-left inside it).
pub fn canvas_size(width: usize, height: usize, events: &Vec<EventData>) -> (size: (usize, usize))
    ensures
        size == canvas_spec(width, height, views(events@)),
{
    let ghost evs = views(events@);
    let mut cols = width;
    let mut rows = height;
    let mut i: usize = 0;
    while i < events.len()
        invariant
            i <= events@.len(),
            evs == views(events@),
            (cols, rows) == canvas_spec(width, height, evs.take(i as int)),
        decreases events@.len() - i,
    {
        proof {
            assert(evs.take(i + 1).drop_last() =~= evs.take(i as int));
            assert(evs.take(i + 1).last() == events@[i as int]@);
        }
        match &events[i] {
            EventData::Resize { cols: c, rows: r } => {
                if *c > cols {
                    cols = *c;
                }
                if *r > rows {
                    rows = *r;
                }
            },
            _ => {},
        }
        i += 1;
    }
    assert(evs.take(i as int) =~= evs);
    (cols, rows)
}

} // verus!
