//! Interpreting terminal output: window titles, newline discipline, and the
//! reduction of emulator cells to styled runs.
pub mod screen;

use vstd::prelude::*;

use crate::term::screen::{all_spaces, rows_view, run_is_blank, PenColor, RunView, Screen, StyledRun};
use crate::text::{push_char, string_from_chars, to_chars};
use crate::theme::{xterm_color, xterm_indexed, VtColor, Rgb};

verus! {

/// Titles set by OSC 0/2 in the rest of the stream `s`.
pub open spec fn osc_titles_spec(s: Seq<char>) -> Seq<Seq<char>>
    decreases s.len(), 0int,
{
    if s.len() < 2 {
        seq![]
    } else if s[0] == '\x1b' && s[1] == ']' {
        let rest = s.skip(2);
        if rest.len() >= 2 && (rest[0] == '0' || rest[0] == '2') && rest[1] == ';' {
            title_body(rest.skip(2), seq![])
        } else {
            osc_titles_spec(rest)
        }
    } else {
        osc_titles_spec(s.drop_first())
    }
}

/// Inside a title whose text so far is `acc`: it ends at the first BEL or
/// ESC; a title never terminated ends the scan.
pub open spec fn title_body(body: Seq<char>, acc: Seq<char>) -> Seq<Seq<char>>
    decreases body.len(), 1int,
{
    if body.len() == 0 {
        seq![]
    } else if body[0] == '\x07' || body[0] == '\x1b' {
        (if acc.len() > 0 {
            seq![acc]
        } else {
            seq![]
        }) + osc_titles_spec(body)
    } else {
        title_body(body.drop_first(), acc.push(body[0]))
    }
}

/// Every window title set via OSC 0/2 in the stream, in order. Titles end
/// at BEL or ST (ESC \); empty titles are skipped and an unterminated one
/// ends the scan.
pub fn osc_titles(data: &str) -> (titles: Vec<String>)
    ensures
        titles@.map_values(|t: String| t@) == osc_titles_spec(data@),
{
    let s = to_chars(data);
    let ghost target = osc_titles_spec(s@);
    let mut titles: Vec<String> = Vec::new();
    let mut i: usize = 0;
    assert(s@.skip(0) =~= s@);
    loop
        invariant
            i <= s@.len(),
            target == osc_titles_spec(s@),
            s@ == data@,
            titles@.map_values(|t: String| t@) + osc_titles_spec(s@.skip(i as int)) == target,
        decreases s@.len() - i,
    {
        let ghost cur = s@.skip(i as int);
        if s.len() - i < 2 {
            assert(osc_titles_spec(cur) == Seq::<Seq<char>>::empty());
            assert(titles@.map_values(|t: String| t@) =~= titles@.map_values(|t: String| t@)
                + Seq::<Seq<char>>::empty());
            return titles;
        }
        assert(cur[0] == s@[i as int] && cur[1] == s@[i + 1]);
        if s[i] == '\x1b' && s[i + 1] == ']' {
            let ghost rest = cur.skip(2);
            assert(rest =~= s@.skip(i + 2));
            if s.len() - i >= 4 && (s[i + 2] == '0' || s[i + 2] == '2') && s[i + 3] == ';' {
                assert(rest[0] == s@[i + 2] && rest[1] == s@[i + 3]);
                let start = i + 4;
                assert(rest.skip(2) =~= s@.skip(start as int));
                assert(s@.subrange(start as int, start as int) =~= Seq::<char>::empty());
                assert(osc_titles_spec(cur) == title_body(s@.skip(start as int), seq![]));
                let mut j: usize = start;
                // Scan the title text up to its terminator.
                while j < s.len() && s[j] != '\x07' && s[j] != '\x1b'
                    invariant
                        start <= j <= s@.len(),
                        titles@.map_values(|t: String| t@) + title_body(
                            s@.skip(j as int),
                            s@.subrange(start as int, j as int),
                        ) == target,
                    decreases s@.len() - j,
                {
                    let ghost body = s@.skip(j as int);
                    assert(body[0] == s@[j as int]);
                    assert(body.drop_first() =~= s@.skip(j + 1));
                    assert(s@.subrange(start as int, j as int).push(body[0]) =~= s@.subrange(
                        start as int,
                        j + 1,
                    ));
                    j += 1;
                }
                let ghost body = s@.skip(j as int);
                if j == s.len() {
                    assert(body.len() == 0);
                    assert(titles@.map_values(|t: String| t@) =~= titles@.map_values(
                        |t: String| t@,
                    ) + Seq::<Seq<char>>::empty());
                    return titles;
                }
                assert(body[0] == s@[j as int]);
                let ghost acc = s@.subrange(start as int, j as int);
                let ghost before = titles@.map_values(|t: String| t@);
                if j > start {
                    let t = string_from_chars(&s.as_slice()[start..j]);
                    assert(t@ =~= acc);
                    titles.push(t);
                    assert(titles@.map_values(|t: String| t@) =~= before + seq![acc]);
                } else {
                    assert(acc.len() == 0);
                    assert(before + Seq::<Seq<char>>::empty() =~= before);
                }
                i = j;
            } else {
                i = i + 2;
            }
        } else {
            assert(cur.drop_first() =~= s@.skip(i + 1));
            i = i + 1;
        }
    }
}

/// `i` is just past an OSC 0 or OSC 2 introducer (`ESC ] 0 ;` or
/// `ESC ] 2 ;`) in `s`.
pub open spec fn title_intro_at(s: Seq<char>, i: int) -> bool {
    &&& 4 <= i <= s.len()
    &&& s[i - 4] == '\x1b'
    &&& s[i - 3] == ']'
    &&& (s[i - 2] == '0' || s[i - 2] == '2')
    &&& s[i - 1] == ';'
}

/// An `ESC ]` (an OSC introducer) starts at `i` in `s`.
pub open spec fn osc_start_at(s: Seq<char>, i: int) -> bool {
    0 <= i && i + 1 < s.len() && s[i] == '\x1b' && s[i + 1] == ']'
}

/// A title as it is reported: non-empty, with no BEL or ESC in it.
pub open spec fn clean_title(t: Seq<char>) -> bool {
    &&& t.len() > 0
    &&& forall|j: int| 0 <= j < t.len() ==> t[j] != '\x07' && t[j] != '\x1b'
}

/// `t` occurs in `s` right after an OSC 0/2 introducer.
pub open spec fn set_in(s: Seq<char>, t: Seq<char>) -> bool {
    exists|i: int| #[trigger] title_intro_at(s, i) && i + t.len() <= s.len() && s.subrange(i, i + t.len()) == t
}

pub open spec fn titles_ok(s: Seq<char>, ts: Seq<Seq<char>>) -> bool {
    forall|k: int| 0 <= k < ts.len() ==> clean_title(#[trigger] ts[k]) && set_in(s, ts[k])
}

proof fn lemma_titles_ok_concat(s: Seq<char>, a: Seq<Seq<char>>, b: Seq<Seq<char>>)
    requires
        titles_ok(s, a),
        titles_ok(s, b),
    ensures
        titles_ok(s, a + b),
{
    assert forall|k: int| 0 <= k < (a + b).len() implies clean_title(#[trigger] (a + b)[k]) && set_in(
        s,
        (a + b)[k],
    ) by {
        if k < a.len() {
            assert((a + b)[k] == a[k]);
        } else {
            assert((a + b)[k] == b[k - a.len()]);
        }
    }
}

proof fn lemma_scan_titles_ok(s: Seq<char>, p: int)
    requires
        0 <= p <= s.len(),
    ensures
        titles_ok(s, osc_titles_spec(s.skip(p))),
    decreases s.len() - p, 0int,
{
    let t = s.skip(p);
    if t.len() >= 2 {
        if t[0] == '\x1b' && t[1] == ']' {
            let rest = t.skip(2);
            assert(rest =~= s.skip(p + 2));
            if rest.len() >= 2 && (rest[0] == '0' || rest[0] == '2') && rest[1] == ';' {
                assert(rest.skip(2) =~= s.skip(p + 4));
                assert(s.subrange(p + 4, p + 4) =~= Seq::<char>::empty());
                lemma_body_titles_ok(s, p + 4, p + 4);
            } else {
                lemma_scan_titles_ok(s, p + 2);
            }
        } else {
            assert(t.drop_first() =~= s.skip(p + 1));
            lemma_scan_titles_ok(s, p + 1);
        }
    }
}

proof fn lemma_body_titles_ok(s: Seq<char>, start: int, q: int)
    requires
        title_intro_at(s, start),
        start <= q <= s.len(),
        forall|j: int| start <= j < q ==> s[j] != '\x07' && s[j] != '\x1b',
    ensures
        titles_ok(s, title_body(s.skip(q), s.subrange(start, q))),
    decreases s.len() - q, 1int,
{
    let body = s.skip(q);
    let acc = s.subrange(start, q);
    if body.len() > 0 {
        if body[0] == '\x07' || body[0] == '\x1b' {
            let head: Seq<Seq<char>> = if acc.len() > 0 {
                seq![acc]
            } else {
                seq![]
            };
            assert(titles_ok(s, head)) by {
                if acc.len() > 0 {
                    assert(head[0] == acc);
                    assert(title_intro_at(s, start) && start + acc.len() <= s.len() && s.subrange(
                        start,
                        start + acc.len(),
                    ) == acc);
                }
            }
            lemma_scan_titles_ok(s, q);
            lemma_titles_ok_concat(s, head, osc_titles_spec(body));
        } else {
            assert(body.drop_first() =~= s.skip(q + 1));
            assert(acc.push(body[0]) =~= s.subrange(start, q + 1));
            lemma_body_titles_ok(s, start, q + 1);
        }
    }
}

/// `a` is a prefix of `b`.
pub open spec fn is_prefix_of<A>(a: Seq<A>, b: Seq<A>) -> bool {
    a.len() <= b.len() && b.take(a.len() as int) == a
}

proof fn lemma_scan_prefix(d: Seq<char>, e: Seq<char>, p: int)
    requires
        0 <= p <= d.len(),
    ensures
        is_prefix_of(osc_titles_spec(d.skip(p)), osc_titles_spec((d + e).skip(p))),
    decreases d.len() - p, 0int,
{
    let de = d + e;
    let t = d.skip(p);
    let u = de.skip(p);
    if t.len() >= 2 {
        assert(u[0] == t[0] && u[1] == t[1]);
        if t[0] == '\x1b' && t[1] == ']' {
            let rest = t.skip(2);
            let urest = u.skip(2);
            assert(rest =~= d.skip(p + 2));
            assert(urest =~= de.skip(p + 2));
            if rest.len() >= 2 {
                assert(urest[0] == rest[0] && urest[1] == rest[1]);
                if (rest[0] == '0' || rest[0] == '2') && rest[1] == ';' {
                    assert(rest.skip(2) =~= d.skip(p + 4));
                    assert(urest.skip(2) =~= de.skip(p + 4));
                    lemma_body_prefix(d, e, p + 4, seq![]);
                } else {
                    lemma_scan_prefix(d, e, p + 2);
                }
            } else {
                assert(osc_titles_spec(rest).len() == 0);
                assert(osc_titles_spec(t).len() == 0);
                assert(osc_titles_spec(u).take(0) =~= Seq::<Seq<char>>::empty());
            }
        } else {
            assert(t.drop_first() =~= d.skip(p + 1));
            assert(u.drop_first() =~= de.skip(p + 1));
            lemma_scan_prefix(d, e, p + 1);
        }
    } else {
        assert(osc_titles_spec(u).take(0) =~= Seq::<Seq<char>>::empty());
    }
}

proof fn lemma_body_prefix(d: Seq<char>, e: Seq<char>, q: int, acc: Seq<char>)
    requires
        0 <= q <= d.len(),
    ensures
        is_prefix_of(title_body(d.skip(q), acc), title_body((d + e).skip(q), acc)),
    decreases d.len() - q, 1int,
{
    let de = d + e;
    let body = d.skip(q);
    let ubody = de.skip(q);
    if body.len() == 0 {
        assert(title_body(ubody, acc).take(0) =~= Seq::<Seq<char>>::empty());
    } else {
        assert(ubody[0] == body[0]);
        if body[0] == '\x07' || body[0] == '\x1b' {
            let head: Seq<Seq<char>> = if acc.len() > 0 {
                seq![acc]
            } else {
                seq![]
            };
            lemma_scan_prefix(d, e, q);
            let a = osc_titles_spec(body);
            let b = osc_titles_spec(ubody);
            assert((head + b).take((head + a).len() as int) =~= head + b.take(a.len() as int));
        } else {
            assert(body.drop_first() =~= d.skip(q + 1));
            assert(ubody.drop_first() =~= de.skip(q + 1));
            lemma_body_prefix(d, e, q + 1, acc.push(body[0]));
        }
    }
}

/// Every title reported is non-empty, holds no BEL or ESC, and occurs in
/// the stream right after an OSC 0/2 introducer, so a stream without
/// `ESC ]` reports none; and more output can only add titles after the
/// ones already found.
pub proof fn osc_titles_are_clean_and_grow(d: Seq<char>, e: Seq<char>)
    ensures
        forall|k: int|
            0 <= k < osc_titles_spec(d).len() ==> clean_title(#[trigger] osc_titles_spec(d)[k])
                && set_in(d, osc_titles_spec(d)[k]),
        (forall|i: int| !#[trigger] osc_start_at(d, i)) ==> osc_titles_spec(d).len() == 0,
        is_prefix_of(osc_titles_spec(d), osc_titles_spec(d + e)),
{
    assert(d.skip(0) =~= d);
    assert((d + e).skip(0) =~= d + e);
    lemma_scan_titles_ok(d, 0);
    lemma_scan_prefix(d, e, 0);
    if osc_titles_spec(d).len() > 0 {
        let t = osc_titles_spec(d)[0];
        assert(set_in(d, t));
        let i = choose|i: int| #[trigger] title_intro_at(d, i) && i + t.len() <= d.len() && d.subrange(i, i + t.len()) == t;
        assert(osc_start_at(d, i - 4));
    }
}

/// The titles `ts` sit in `s` at positions `ps`, in stream order: each right
/// after an OSC 0/2 introducer, each ending before the next one begins.
pub open spec fn titles_placed(s: Seq<char>, ts: Seq<Seq<char>>, ps: Seq<int>) -> bool {
    &&& ps.len() == ts.len()
    &&& forall|k: int|
        0 <= k < ts.len() ==> title_intro_at(s, #[trigger] ps[k]) && ps[k] + ts[k].len() <= s.len()
            && s.subrange(ps[k], ps[k] + ts[k].len()) == ts[k]
    &&& forall|i: int, j: int|
        #![trigger ps[i], ps[j]]
        0 <= i < j < ts.len() ==> ps[i] + ts[i].len() < ps[j]
}

proof fn lemma_placed_concat(s: Seq<char>, a: Seq<Seq<char>>, pa: Seq<int>, b: Seq<Seq<char>>, pb: Seq<int>, bound: int)
    requires
        titles_placed(s, a, pa),
        titles_placed(s, b, pb),
        forall|i: int| 0 <= i < a.len() ==> #[trigger] pa[i] + a[i].len() < bound,
        forall|j: int| 0 <= j < b.len() ==> bound <= #[trigger] pb[j],
    ensures
        titles_placed(s, a + b, pa + pb),
{
    let t = a + b;
    let p = pa + pb;
    assert forall|k: int| 0 <= k < t.len() implies title_intro_at(s, #[trigger] p[k]) && p[k] + t[k].len()
        <= s.len() && s.subrange(p[k], p[k] + t[k].len()) == t[k] by {
        if k < a.len() {
            assert(p[k] == pa[k] && t[k] == a[k]);
        } else {
            assert(p[k] == pb[k - a.len()] && t[k] == b[k - a.len()]);
        }
    }
    assert forall|i: int, j: int| #![trigger p[i], p[j]] 0 <= i < j < t.len() implies p[i] + t[i].len() < p[j] by {
        if j < a.len() {
            assert(p[i] == pa[i] && t[i] == a[i] && p[j] == pa[j]);
        } else if i < a.len() {
            assert(p[i] == pa[i] && t[i] == a[i] && p[j] == pb[j - a.len()]);
            assert(pa[i] + a[i].len() < bound);
            assert(bound <= pb[j - a.len()]);
        } else {
            assert(p[i] == pb[i - a.len()] && t[i] == b[i - a.len()] && p[j] == pb[j - a.len()]);
        }
    }
}

proof fn lemma_scan_placed(s: Seq<char>, p: int) -> (ps: Seq<int>)
    requires
        0 <= p <= s.len(),
    ensures
        titles_placed(s, osc_titles_spec(s.skip(p)), ps),
        forall|k: int| 0 <= k < ps.len() ==> p + 4 <= #[trigger] ps[k],
    decreases s.len() - p, 0int,
{
    let t = s.skip(p);
    if t.len() >= 2 {
        if t[0] == '\x1b' && t[1] == ']' {
            let rest = t.skip(2);
            assert(rest =~= s.skip(p + 2));
            if rest.len() >= 2 && (rest[0] == '0' || rest[0] == '2') && rest[1] == ';' {
                assert(rest.skip(2) =~= s.skip(p + 4));
                assert(s.subrange(p + 4, p + 4) =~= Seq::<char>::empty());
                lemma_body_placed(s, p + 4, p + 4)
            } else {
                lemma_scan_placed(s, p + 2)
            }
        } else {
            assert(t.drop_first() =~= s.skip(p + 1));
            lemma_scan_placed(s, p + 1)
        }
    } else {
        Seq::empty()
    }
}

proof fn lemma_body_placed(s: Seq<char>, start: int, q: int) -> (ps: Seq<int>)
    requires
        title_intro_at(s, start),
        start <= q <= s.len(),
    ensures
        titles_placed(s, title_body(s.skip(q), s.subrange(start, q)), ps),
        forall|k: int| 0 <= k < ps.len() ==> start <= #[trigger] ps[k],
    decreases s.len() - q, 1int,
{
    let body = s.skip(q);
    let acc = s.subrange(start, q);
    if body.len() > 0 {
        if body[0] == '\x07' || body[0] == '\x1b' {
            let rest = lemma_scan_placed(s, q);
            if acc.len() > 0 {
                let head = seq![acc];
                let hp = seq![start];
                assert(titles_placed(s, head, hp)) by {
                    assert(hp[0] == start && head[0] == acc);
                }
                lemma_placed_concat(s, head, hp, osc_titles_spec(body), rest, q + 1);
                assert(title_body(body, acc) == head + osc_titles_spec(body));
                hp + rest
            } else {
                assert(title_body(body, acc) =~= osc_titles_spec(body));
                rest
            }
        } else {
            assert(body.drop_first() =~= s.skip(q + 1));
            assert(acc.push(body[0]) =~= s.subrange(start, q + 1));
            lemma_body_placed(s, start, q + 1)
        }
    } else {
        assert(titles_placed(s, title_body(body, acc), Seq::<int>::empty()));
        Seq::empty()
    }
}

proof fn lemma_no_esc_skipped(x: Seq<char>, s: Seq<char>)
    requires
        forall|i: int| 0 <= i < x.len() ==> x[i] != '\x1b',
    ensures
        osc_titles_spec(x + s) == osc_titles_spec(s),
    decreases x.len(),
{
    if x.len() > 0 {
        let xs = x + s;
        assert(xs[0] == x[0]);
        if xs.len() >= 2 {
            assert(xs.drop_first() =~= x.drop_first() + s);
            lemma_no_esc_skipped(x.drop_first(), s);
        } else {
            assert(s.len() == 0);
        }
    } else {
        assert(x + s =~= s);
    }
}

proof fn lemma_body_reads_text(t: Seq<char>, tail: Seq<char>, acc: Seq<char>)
    requires
        forall|j: int| 0 <= j < t.len() ==> t[j] != '\x07' && t[j] != '\x1b',
    ensures
        title_body(t + tail, acc) == title_body(tail, acc + t),
    decreases t.len(),
{
    if t.len() == 0 {
        assert(t + tail =~= tail);
        assert(acc + t =~= acc);
    } else {
        let b = t + tail;
        assert(b[0] == t[0]);
        assert(b.drop_first() =~= t.drop_first() + tail);
        lemma_body_reads_text(t.drop_first(), tail, acc.push(t[0]));
        assert(acc.push(t[0]) + t.drop_first() =~= acc + t);
    }
}

/// Every title is found, in turn: text without ESC sets no title, and a
/// complete OSC 0/2 sequence (`ESC ] 0 ;` or `ESC ] 2 ;`, the title,
/// then BEL or ESC) contributes its title (unless empty) followed by
/// whatever the stream sets from its terminator on; a BEL sets nothing.
pub proof fn titles_are_found_in_turn(x: Seq<char>, d: char, t: Seq<char>, term: char, rest: Seq<char>)
    requires
        forall|i: int| 0 <= i < x.len() ==> x[i] != '\x1b',
        d == '0' || d == '2',
        forall|j: int| 0 <= j < t.len() ==> t[j] != '\x07' && t[j] != '\x1b',
        term == '\x07' || term == '\x1b',
    ensures
        osc_titles_spec(x + rest) == osc_titles_spec(rest),
        osc_titles_spec(x + (seq!['\x1b', ']', d, ';'] + t + seq![term] + rest)) == (if t.len() > 0 {
            seq![t]
        } else {
            Seq::<Seq<char>>::empty()
        }) + osc_titles_spec(seq![term] + rest),
        osc_titles_spec(seq!['\x07'] + rest) == osc_titles_spec(rest),
{
    lemma_no_esc_skipped(x, rest);
    let a = seq!['\x1b', ']', d, ';'] + t + seq![term] + rest;
    lemma_no_esc_skipped(x, a);
    assert(a[0] == '\x1b' && a[1] == ']');
    let r = a.skip(2);
    assert(r[0] == d && r[1] == ';');
    assert(r.skip(2) =~= t + (seq![term] + rest));
    lemma_body_reads_text(t, seq![term] + rest, seq![]);
    assert(Seq::<char>::empty() + t =~= t);
    let tail = seq![term] + rest;
    assert(tail[0] == term);
    lemma_no_esc_skipped(seq!['\x07'], rest);
}

/// Titles come in stream order: each one sits right after its own OSC 0/2
/// introducer, and ends before the next title's text begins.
pub proof fn osc_titles_in_stream_order(d: Seq<char>)
    ensures
        exists|ps: Seq<int>| #[trigger] titles_placed(d, osc_titles_spec(d), ps),
{
    assert(d.skip(0) =~= d);
    let ps = lemma_scan_placed(d, 0);
    assert(titles_placed(d, osc_titles_spec(d), ps));
}

/// Emulating the tty's ONLCR: a `\n` not preceded by `\r` gets one
/// inserted. `prev` is the character before `s`.
pub open spec fn normalize_from(s: Seq<char>, prev: char) -> Seq<char>
    decreases s.len(),
{
    if s.len() == 0 {
        seq![]
    } else {
        (if s[0] == '\n' && prev != '\r' {
            seq!['\r', '\n']
        } else {
            seq![s[0]]
        }) + normalize_from(s.drop_first(), s[0])
    }
}

pub open spec fn normalize_newlines_spec(s: Seq<char>) -> Seq<char> {
    normalize_from(s, '\0')
}

/// A VT treats LF strictly as "move down" — the tty driver's ONLCR is what
/// turns program `\n` into `\r\n` on a real terminal. PTY captures already
/// contain `\r\n`; piped/file input has bare `\n`, so emulate the line
/// discipline.
pub fn normalize_newlines(s: &str) -> (out: String)
    ensures
        out@ == normalize_newlines_spec(s@),
{
    let chars = to_chars(s);
    let mut out = String::new();
    let mut prev = '\0';
    let mut i: usize = 0;
    assert(chars@.skip(0) =~= chars@);
    while i < chars.len()
        invariant
            i <= chars@.len(),
            chars@ == s@,
            i > 0 ==> prev == chars@[i - 1],
            i == 0 ==> prev == '\0',
            out@ + normalize_from(chars@.skip(i as int), prev) == normalize_newlines_spec(s@),
        decreases chars@.len() - i,
    {
        let ghost rest = chars@.skip(i as int);
        let ghost before = out@;
        let c = chars[i];
        assert(rest[0] == c);
        assert(rest.drop_first() =~= chars@.skip(i + 1));
        if c == '\n' && prev != '\r' {
            push_char(&mut out, '\r');
        }
        push_char(&mut out, c);
        proof {
            if c == '\n' && prev != '\r' {
                assert(out@ =~= before + seq!['\r', '\n']);
            } else {
                assert(out@ =~= before + seq![c]);
            }
            assert(normalize_from(rest, prev) =~= (if c == '\n' && prev != '\r' {
                seq!['\r', '\n']
            } else {
                seq![c]
            }) + normalize_from(chars@.skip(i + 1), c));
        }
        prev = c;
        i += 1;
    }
    assert(chars@.skip(i as int) =~= Seq::<char>::empty());
    assert(out@ + Seq::<char>::empty() =~= out@);
    out
}

/// Every `\n` already follows a `\r` (or `prev`, before the start, is `\r`).
pub open spec fn newlines_follow_cr(s: Seq<char>, prev: char) -> bool {
    forall|i: int|
        0 <= i < s.len() && #[trigger] s[i] == '\n' ==> (if i == 0 {
            prev == '\r'
        } else {
            s[i - 1] == '\r'
        })
}

proof fn lemma_normalized_fixed(s: Seq<char>, prev: char)
    requires
        newlines_follow_cr(s, prev),
    ensures
        normalize_from(s, prev) == s,
    decreases s.len(),
{
    if s.len() > 0 {
        assert(newlines_follow_cr(s.drop_first(), s[0])) by {
            assert forall|i: int|
                0 <= i < s.drop_first().len() && #[trigger] s.drop_first()[i] == '\n' implies (if i == 0 {
                s[0] == '\r'
            } else {
                s.drop_first()[i - 1] == '\r'
            }) by {
                assert(s.drop_first()[i] == s[i + 1]);
            }
        }
        lemma_normalized_fixed(s.drop_first(), s[0]);
        assert(seq![s[0]] + s.drop_first() =~= s);
    }
}

proof fn lemma_normalize_establishes(s: Seq<char>, prev: char)
    ensures
        newlines_follow_cr(normalize_from(s, prev), prev),
        s.len() > 0 ==> normalize_from(s, prev).len() > 0 && normalize_from(s, prev).last()
            == s.last(),
    decreases s.len(),
{
    if s.len() > 0 {
        let head: Seq<char> = if s[0] == '\n' && prev != '\r' {
            seq!['\r', '\n']
        } else {
            seq![s[0]]
        };
        let tail = normalize_from(s.drop_first(), s[0]);
        lemma_normalize_establishes(s.drop_first(), s[0]);
        let t = head + tail;
        assert(t == normalize_from(s, prev));
        assert forall|i: int| 0 <= i < t.len() && #[trigger] t[i] == '\n' implies (if i == 0 {
            prev == '\r'
        } else {
            t[i - 1] == '\r'
        }) by {
            if i < head.len() {
            } else {
                let k = i - head.len();
                assert(t[i] == tail[k]);
                if k == 0 {
                    assert(t[i - 1] == head.last());
                } else {
                    assert(t[i - 1] == tail[k - 1]);
                }
            }
        }
        if s.drop_first().len() > 0 {
            assert(s.drop_first().last() == s.last());
        } else {
            assert(tail.len() == 0);
        }
    }
}

/// Normalizing is idempotent: its output already has a `\r` before every
/// `\n`, so a second pass changes nothing.
pub proof fn normalize_newlines_idempotent(s: Seq<char>)
    ensures
        normalize_newlines_spec(normalize_newlines_spec(s)) == normalize_newlines_spec(s),
{
    lemma_normalize_establishes(s, '\0');
    lemma_normalized_fixed(normalize_newlines_spec(s), '\0');
}

/// Input that already carries `\r\n` everywhere is left unchanged.
pub proof fn normalize_newlines_keeps_crlf(s: Seq<char>)
    requires
        newlines_follow_cr(s, '\0'),
    ensures
        normalize_newlines_spec(s) == s,
{
    lemma_normalized_fixed(s, '\0');
}

} // verus!

verus! {

/// The emulator's pen for one cell, as plain values.
#[derive(Debug, Clone, Copy, PartialEq, Eq, Structural)]
pub struct VtPen {
    pub fg: Option<VtColor>,
    pub bg: Option<VtColor>,
    pub bold: bool,
    pub faint: bool,
    pub italic: bool,
    pub underline: bool,
    pub strikethrough: bool,
    pub inverse: bool,
}

/// One grid cell: its character, its width in columns (2 for the head of a
/// wide character, 0 for the column a wide character spills into) and pen.
#[derive(Debug, Clone, Copy, PartialEq, Eq, Structural)]
pub struct Cell {
    pub ch: char,
    pub width: u8,
    pub pen: VtPen,
}

/// Resolved visual attributes of a cell: inverse swapped, colors kept
/// symbolic (faint dims at render time). Blink is rendered static.
#[derive(Debug, Clone, Copy, PartialEq, Eq, Structural)]
pub struct Attrs {
    pub fg: PenColor,
    pub bg: Option<PenColor>,
    pub faint: bool,
    pub bold: bool,
    pub italic: bool,
    pub underline: bool,
    pub strikethrough: bool,
}

/// Palette colours stay symbolic; the cube, the grayscale ramp and direct
/// colours are the same in every theme and become concrete.
pub open spec fn symbolic_spec(color: VtColor) -> PenColor {
    match color {
        VtColor::Indexed(i) => if i < 16 {
            PenColor::Indexed(i)
        } else {
            PenColor::Rgb(xterm_color(i as int))
        },
        VtColor::Rgb(c) => PenColor::Rgb(c),
    }
}

pub fn symbolic(color: VtColor) -> (p: PenColor)
    ensures
        p == symbolic_spec(color),
{
    match color {
        VtColor::Indexed(i) => if i < 16 {
            PenColor::Indexed(i)
        } else {
            PenColor::Rgb(xterm_indexed(i))
        },
        VtColor::Rgb(c) => PenColor::Rgb(c),
    }
}

pub open spec fn attrs_of(pen: VtPen) -> Attrs {
    let fg = match pen.fg {
        Some(c) => symbolic_spec(c),
        None => PenColor::DefaultFg,
    };
    let bg = match pen.bg {
        Some(c) => Some(symbolic_spec(c)),
        None => None,
    };
    Attrs {
        fg: if pen.inverse {
            match bg {
                Some(b) => b,
                None => PenColor::DefaultBg,
            }
        } else {
            fg
        },
        bg: if pen.inverse {
            Some(fg)
        } else {
            bg
        },
        faint: pen.faint,
        bold: pen.bold,
        italic: pen.italic,
        underline: pen.underline,
        strikethrough: pen.strikethrough,
    }
}

/// Inverse video swaps the colours: an inverse pen's foreground is what
/// the same pen's background would be without inverse (the default
/// background when it has none), and its background is what its
/// foreground would be. Without inverse, palette colours stay symbolic,
/// other colours become concrete, unset colours are the defaults, and the
/// other attributes are the pen's own.
pub proof fn inverse_swaps_colours(p: VtPen, i: u8, c: Rgb)
    ensures
        attrs_of(VtPen { inverse: true, ..p }).fg == match attrs_of(VtPen { inverse: false, ..p }).bg {
            Some(b) => b,
            None => PenColor::DefaultBg,
        },
        attrs_of(VtPen { inverse: true, ..p }).bg == Some(attrs_of(VtPen { inverse: false, ..p }).fg),
        i < 16 ==> attrs_of(VtPen { fg: Some(VtColor::Indexed(i)), bg: Some(VtColor::Indexed(i)), inverse: false, ..p }).fg
            == PenColor::Indexed(i) && attrs_of(
            VtPen { fg: Some(VtColor::Indexed(i)), bg: Some(VtColor::Indexed(i)), inverse: false, ..p },
        ).bg == Some(PenColor::Indexed(i)),
        i >= 16 ==> attrs_of(VtPen { fg: Some(VtColor::Indexed(i)), inverse: false, ..p }).fg == PenColor::Rgb(
            xterm_color(i as int),
        ),
        attrs_of(VtPen { fg: Some(VtColor::Rgb(c)), bg: Some(VtColor::Rgb(c)), inverse: false, ..p }).fg
            == PenColor::Rgb(c),
        attrs_of(VtPen { fg: Some(VtColor::Rgb(c)), bg: Some(VtColor::Rgb(c)), inverse: false, ..p }).bg
            == Some(PenColor::Rgb(c)),
        attrs_of(VtPen { fg: None, bg: None, inverse: false, ..p }).fg == PenColor::DefaultFg,
        attrs_of(VtPen { fg: None, bg: None, inverse: false, ..p }).bg is None,
        ({
            let a = attrs_of(p);
            a.faint == p.faint && a.bold == p.bold && a.italic == p.italic && a.underline == p.underline
                && a.strikethrough == p.strikethrough
        }),
{
}

/// A cell's resolved attributes: inverse swaps foreground and background
/// (a missing background becomes the default background).
pub fn resolve(pen: &VtPen) -> (a: Attrs)
    ensures
        a == attrs_of(*pen),
{
    let mut fg = match pen.fg {
        Some(c) => symbolic(c),
        None => PenColor::DefaultFg,
    };
    let mut bg = match pen.bg {
        Some(c) => Some(symbolic(c)),
        None => None,
    };
    if pen.inverse {
        let new_bg = fg;
        fg = match bg {
            Some(b) => b,
            None => PenColor::DefaultBg,
        };
        bg = Some(new_bg);
    }
    Attrs {
        fg,
        bg,
        faint: pen.faint,
        bold: pen.bold,
        italic: pen.italic,
        underline: pen.underline,
        strikethrough: pen.strikethrough,
    }
}

/// Columns the cells cover.
pub open spec fn cols_of(cells: Seq<Cell>) -> nat
    decreases cells.len(),
{
    if cells.len() == 0 {
        0
    } else {
        cols_of(cells.drop_last()) + cells.last().width as nat
    }
}

pub open spec fn same_style(r: RunView, a: Attrs) -> bool {
    &&& r.fg == a.fg
    &&& r.bg == a.bg
    &&& r.faint == a.faint
    &&& r.bold == a.bold
    &&& r.italic == a.italic
    &&& r.underline == a.underline
    &&& r.strikethrough == a.strikethrough
}

pub open spec fn new_run(col: int, cell: Cell, a: Attrs) -> RunView {
    RunView {
        col: col as usize,
        width: cell.width as usize,
        text: seq![cell.ch],
        fg: a.fg,
        bg: a.bg,
        faint: a.faint,
        bold: a.bold,
        italic: a.italic,
        underline: a.underline,
        strikethrough: a.strikethrough,
        wide: cell.width == 2,
    }
}

/// Whether `cell`, at column `col`, extends the last run of `runs`: both
/// narrow, adjacent, and styled alike.
pub open spec fn extends(runs: Seq<RunView>, cell: Cell, col: int) -> bool {
    &&& cell.width != 2
    &&& runs.len() > 0
    &&& !runs.last().wide
    &&& runs.last().col + runs.last().width == col
    &&& same_style(runs.last(), attrs_of(cell.pen))
}

/// Cells gathered left to right into maximal runs of adjacent narrow cells
/// sharing resolved attributes; a wide character is always a run of its
/// own, and continuation cells (width 0) are skipped.
pub open spec fn merged_runs(cells: Seq<Cell>) -> Seq<RunView>
    decreases cells.len(),
{
    if cells.len() == 0 {
        seq![]
    } else {
        let prev = merged_runs(cells.drop_last());
        let cell = cells.last();
        let col = cols_of(cells.drop_last()) as int;
        if cell.width == 0 {
            prev
        } else if extends(prev, cell, col) {
            let last = prev.last();
            prev.update(
                prev.len() - 1,
                RunView { text: last.text.push(cell.ch), width: (last.width + 1) as usize, ..last },
            )
        } else {
            prev.push(new_run(col, cell, attrs_of(cell.pen)))
        }
    }
}

/// `s` without its trailing spaces.
pub open spec fn trim_spaces(s: Seq<char>) -> Seq<char>
    decreases s.len(),
{
    if s.len() > 0 && s.last() == ' ' {
        trim_spaces(s.drop_last())
    } else {
        s
    }
}

/// Trailing blank cells share the text's default pen and merge into the
/// last run; they are trimmed when nothing (background, decoration) makes
/// them visible.
pub open spec fn trim_last(runs: Seq<RunView>) -> Seq<RunView> {
    if runs.len() > 0 && runs.last().bg is None && !runs.last().underline
        && !runs.last().strikethrough {
        let r = runs.last();
        let t = trim_spaces(r.text);
        runs.update(
            runs.len() - 1,
            RunView { text: t, width: (r.width - (r.text.len() - t.len())) as usize, ..r },
        )
    } else {
        runs
    }
}

/// The runs that draw something.
pub open spec fn visible_runs(runs: Seq<RunView>) -> Seq<RunView>
    decreases runs.len(),
{
    if runs.len() == 0 {
        seq![]
    } else if run_is_blank(runs.last()) {
        visible_runs(runs.drop_last())
    } else {
        visible_runs(runs.drop_last()).push(runs.last())
    }
}

/// The styled runs of one grid row.
pub open spec fn line_runs(cells: Seq<Cell>) -> Seq<RunView> {
    visible_runs(trim_last(merged_runs(cells)))
}

/// Every run is non-empty, no wider than the columns it was built from,
/// has no more characters than columns, and ends by `limit`.
pub open spec fn runs_bounded(runs: Seq<RunView>, limit: int) -> bool {
    forall|k: int|
        0 <= k < runs.len() ==> {
            &&& (#[trigger] runs[k]).text.len() >= 1
            &&& runs[k].text.len() <= runs[k].width
            &&& runs[k].col + runs[k].width <= limit
        }
}

/// A wide run holds its one character over two columns.
pub open spec fn alone_if_wide(r: RunView) -> bool {
    r.wide ==> r.text.len() == 1 && r.width == 2
}

proof fn lemma_merged_wide_alone(cells: Seq<Cell>)
    ensures
        forall|k: int|
            0 <= k < merged_runs(cells).len() ==> alone_if_wide(#[trigger] merged_runs(cells)[k]),
    decreases cells.len(),
{
    if cells.len() > 0 {
        lemma_merged_wide_alone(cells.drop_last());
        let prev = merged_runs(cells.drop_last());
        let cell = cells.last();
        let col = cols_of(cells.drop_last()) as int;
        let runs = merged_runs(cells);
        if cell.width == 0 {
        } else if extends(prev, cell, col) {
            let last = prev.last();
            assert forall|k: int| 0 <= k < runs.len() implies alone_if_wide(#[trigger] runs[k]) by {
                if k < prev.len() - 1 {
                    assert(runs[k] == prev[k]);
                } else {
                    assert(!runs[k].wide);
                }
            }
        } else {
            assert forall|k: int| 0 <= k < runs.len() implies alone_if_wide(#[trigger] runs[k]) by {
                if k < prev.len() {
                    assert(runs[k] == prev[k]);
                }
            }
        }
    }
}

proof fn lemma_visible_from(runs: Seq<RunView>)
    ensures
        forall|k: int|
            0 <= k < visible_runs(runs).len() ==> exists|j: int|
                0 <= j < runs.len() && runs[j] == #[trigger] visible_runs(runs)[k] && !run_is_blank(
                    runs[j],
                ),
    decreases runs.len(),
{
    if runs.len() > 0 {
        lemma_visible_from(runs.drop_last());
        let prev = visible_runs(runs.drop_last());
        let vis = visible_runs(runs);
        assert forall|k: int| 0 <= k < vis.len() implies exists|j: int|
            0 <= j < runs.len() && runs[j] == #[trigger] vis[k] && !run_is_blank(runs[j]) by {
            if k < prev.len() {
                let j = choose|j: int|
                    0 <= j < runs.drop_last().len() && runs.drop_last()[j] == #[trigger] prev[k]
                        && !run_is_blank(runs.drop_last()[j]);
                assert(runs[j] == runs.drop_last()[j]);
                assert(vis[k] == prev[k]);
            } else {
                assert(runs[runs.len() - 1] == vis[k]);
            }
        }
    }
}

/// A wide (two-column) character always gets a run of its own: every wide
/// run of a row holds exactly one character spanning two columns.
pub proof fn wide_characters_stand_alone(cells: Seq<Cell>)
    ensures
        forall|k: int| 0 <= k < line_runs(cells).len() ==> alone_if_wide(#[trigger] line_runs(cells)[k]),
{
    let merged = merged_runs(cells);
    let trimmed = trim_last(merged);
    lemma_merged_wide_alone(cells);
    assert forall|k: int| 0 <= k < trimmed.len() && !run_is_blank(#[trigger] trimmed[k]) implies alone_if_wide(
        trimmed[k],
    ) by {
        assert(alone_if_wide(merged[k]));
        let r = merged.last();
        if k == merged.len() - 1 && r.bg is None && !r.underline && !r.strikethrough {
            let t = trim_spaces(r.text);
            assert(trimmed[k] == RunView { text: t, width: (r.width - (r.text.len() - t.len())) as usize, ..r });
            if r.wide {
                if r.text[0] == ' ' {
                    assert(r.text.drop_last().len() == 0);
                    assert(trim_spaces(r.text.drop_last()) == r.text.drop_last());
                    assert(t.len() == 0);
                    assert(all_spaces(trimmed[k].text));
                } else {
                    assert(t == r.text);
                }
            }
        } else {
            assert(trimmed[k] == merged[k]);
        }
    }
    lemma_visible_from(trimmed);
    assert forall|k: int| 0 <= k < line_runs(cells).len() implies alone_if_wide(
        #[trigger] line_runs(cells)[k],
    ) by {
        let j = choose|j: int|
            0 <= j < trimmed.len() && trimmed[j] == #[trigger] line_runs(cells)[k] && !run_is_blank(
                trimmed[j],
            );
    }
}

proof fn lemma_merged_bounded(cells: Seq<Cell>)
    requires
        cols_of(cells) <= usize::MAX,
    ensures
        runs_bounded(merged_runs(cells), cols_of(cells) as int),
    decreases cells.len(),
{
    if cells.len() > 0 {
        lemma_merged_bounded(cells.drop_last());
        let prev = merged_runs(cells.drop_last());
        let cell = cells.last();
        let col = cols_of(cells.drop_last()) as int;
        let limit = cols_of(cells) as int;
        let runs = merged_runs(cells);
        assert forall|k: int| 0 <= k < prev.len() implies {
            &&& (#[trigger] prev[k]).text.len() >= 1
            &&& prev[k].text.len() <= prev[k].width
            &&& prev[k].col + prev[k].width <= limit
        } by {}
        if cell.width == 0 {
            assert(runs == prev);
        } else if extends(prev, cell, col) {
            let last = prev.last();
            assert(runs == prev.update(
                prev.len() - 1,
                RunView { text: last.text.push(cell.ch), width: (last.width + 1) as usize, ..last },
            ));
            assert forall|k: int| 0 <= k < runs.len() implies {
                &&& (#[trigger] runs[k]).text.len() >= 1
                &&& runs[k].text.len() <= runs[k].width
                &&& runs[k].col + runs[k].width <= limit
            } by {
                if k < prev.len() - 1 {
                    assert(runs[k] == prev[k]);
                } else {
                    assert(prev[k] == last);
                }
            }
        } else {
            assert(runs == prev.push(new_run(col, cell, attrs_of(cell.pen))));
            assert forall|k: int| 0 <= k < runs.len() implies {
                &&& (#[trigger] runs[k]).text.len() >= 1
                &&& runs[k].text.len() <= runs[k].width
                &&& runs[k].col + runs[k].width <= limit
            } by {
                if k < prev.len() {
                    assert(runs[k] == prev[k]);
                }
            }
        }
    }
}

proof fn lemma_cols_prefix(cells: Seq<Cell>, i: int)
    requires
        0 <= i <= cells.len(),
    ensures
        cols_of(cells.take(i)) <= cols_of(cells),
    decreases cells.len() - i,
{
    if i < cells.len() {
        lemma_cols_prefix(cells, i + 1);
        assert(cells.take(i + 1).drop_last() =~= cells.take(i));
    } else {
        assert(cells.take(i) =~= cells);
    }
}

proof fn lemma_cell_before(cells: Seq<Cell>, t: int, n: int)
    requires
        0 <= t < n <= cells.len(),
    ensures
        cols_of(cells.take(t)) + cells[t].width <= cols_of(cells.take(n)),
{
    let pre = cells.take(n);
    lemma_cols_prefix(pre, t + 1);
    assert(pre.take(t + 1) =~= cells.take(t + 1));
    assert(cells.take(t + 1).drop_last() =~= cells.take(t));
    assert(cells.take(t + 1).last() == cells[t]);
}

/// Every cell inside a merged run resolves to the run's attributes.
proof fn lemma_merged_carry(cells: Seq<Cell>)
    requires
        cols_of(cells) <= usize::MAX,
    ensures
        forall|k: int, t: int|
            #![trigger merged_runs(cells)[k], cells[t]]
            0 <= k < merged_runs(cells).len() && 0 <= t < cells.len() && cells[t].width > 0
                && merged_runs(cells)[k].col <= cols_of(cells.take(t)) < merged_runs(cells)[k].col
                + merged_runs(cells)[k].width ==> {
                let r = merged_runs(cells)[k];
                let a = attrs_of(cells[t].pen);
                &&& r.fg == a.fg
                &&& r.bg == a.bg
                &&& r.faint == a.faint
                &&& r.bold == a.bold
                &&& r.italic == a.italic
                &&& r.underline == a.underline
                &&& r.strikethrough == a.strikethrough
            },
    decreases cells.len(),
{
    if cells.len() > 0 {
        let n = cells.len() - 1;
        let pre = cells.drop_last();
        lemma_cols_prefix(cells, n);
        assert(cells.take(n) =~= pre);
        lemma_merged_carry(pre);
        lemma_merged_bounded(pre);
        let prev = merged_runs(pre);
        let cell = cells.last();
        assert(cells[n] == cell);
        let col = cols_of(pre) as int;
        let runs = merged_runs(cells);
        assert forall|k: int, t: int|
            #![trigger runs[k], cells[t]]
            0 <= k < runs.len() && 0 <= t < cells.len() && cells[t].width > 0 && runs[k].col <= cols_of(
                cells.take(t),
            ) < runs[k].col + runs[k].width implies {
            let r = runs[k];
            let a = attrs_of(cells[t].pen);
            &&& r.fg == a.fg
            &&& r.bg == a.bg
            &&& r.faint == a.faint
            &&& r.bold == a.bold
            &&& r.italic == a.italic
            &&& r.underline == a.underline
            &&& r.strikethrough == a.strikethrough
        } by {
            if t < n {
                lemma_cell_before(cells, t, n);
                assert(pre.take(t) =~= cells.take(t));
                assert(pre[t] == cells[t]);
            }
            if cell.width == 0 {
                assert(t < n);
                assert(runs[k] == prev[k]);
            } else if extends(prev, cell, col) {
                let m = prev.len() - 1;
                let last = prev.last();
                assert(last == prev[m]);
                assert(runs == prev.update(
                    m,
                    RunView { text: last.text.push(cell.ch), width: (last.width + 1) as usize, ..last },
                ));
                assert(last.col + last.width <= col);
                if k < m {
                    assert(runs[k] == prev[k]);
                    assert(prev[k].col + prev[k].width <= col);
                    if t == n {
                        assert(cells.take(t) =~= pre);
                    }
                } else {
                    if t == n {
                        assert(cells.take(t) =~= pre);
                    } else {
                        assert(cols_of(cells.take(t)) < col);
                    }
                }
            } else {
                let r = new_run(col, cell, attrs_of(cell.pen));
                assert(runs == prev.push(r));
                if k < prev.len() {
                    assert(runs[k] == prev[k]);
                    assert(prev[k].col + prev[k].width <= col);
                    if t == n {
                        assert(cells.take(t) =~= pre);
                    }
                } else {
                    assert(runs[k] == r);
                    if t == n {
                        assert(cells.take(t) =~= pre);
                    } else {
                        assert(cols_of(cells.take(t)) < col);
                    }
                }
            }
        }
    }
}

/// Every character of a run carries its own cell's resolved attributes:
/// for each run of a row and each (non-continuation) cell whose column
/// lies inside the run, the run's colours and style flags are exactly the
/// ones that cell's pen resolves to.
pub proof fn runs_carry_their_cells_attributes(cells: Seq<Cell>)
    requires
        cols_of(cells) <= usize::MAX,
    ensures
        forall|k: int, t: int|
            #![trigger line_runs(cells)[k], cells[t]]
            0 <= k < line_runs(cells).len() && 0 <= t < cells.len() && cells[t].width > 0
                && line_runs(cells)[k].col <= cols_of(cells.take(t)) < line_runs(cells)[k].col
                + line_runs(cells)[k].width ==> {
                let r = line_runs(cells)[k];
                let a = attrs_of(cells[t].pen);
                &&& r.fg == a.fg
                &&& r.bg == a.bg
                &&& r.faint == a.faint
                &&& r.bold == a.bold
                &&& r.italic == a.italic
                &&& r.underline == a.underline
                &&& r.strikethrough == a.strikethrough
            },
{
    lemma_merged_carry(cells);
    lemma_merged_bounded(cells);
    let merged = merged_runs(cells);
    let trimmed = trim_last(merged);
    lemma_visible_from(trimmed);
    let vis = visible_runs(trimmed);
    assert forall|k: int, t: int|
        #![trigger vis[k], cells[t]]
        0 <= k < vis.len() && 0 <= t < cells.len() && cells[t].width > 0 && vis[k].col <= cols_of(
            cells.take(t),
        ) < vis[k].col + vis[k].width implies {
        let r = vis[k];
        let a = attrs_of(cells[t].pen);
        &&& r.fg == a.fg
        &&& r.bg == a.bg
        &&& r.faint == a.faint
        &&& r.bold == a.bold
        &&& r.italic == a.italic
        &&& r.underline == a.underline
        &&& r.strikethrough == a.strikethrough
    } by {
        let j = choose|j: int| 0 <= j < trimmed.len() && trimmed[j] == #[trigger] vis[k] && !run_is_blank(trimmed[j]);
        let last = merged.last();
        if j == merged.len() - 1 && last.bg is None && !last.underline && !last.strikethrough {
            let tt = trim_spaces(last.text);
            assert(merged[j] == last);
            assert(trimmed[j] == RunView {
                text: tt,
                width: (last.width - (last.text.len() - tt.len())) as usize,
                ..last
            });
            lemma_trim_spaces_prefix(last.text);
            assert(trimmed[j].width <= merged[j].width);
            assert(merged[j] == merged[j] && cells[t] == cells[t]);
        } else {
            assert(trimmed[j] == merged[j]);
            assert(merged[j] == merged[j] && cells[t] == cells[t]);
        }
    }
}

/// Each run ends at or before the column where any later run starts.
pub open spec fn runs_in_order(runs: Seq<RunView>) -> bool {
    forall|i: int, j: int|
        #![trigger runs[i], runs[j]]
        0 <= i < j < runs.len() ==> runs[i].col + runs[i].width <= runs[j].col
}

/// A row as it is rendered: runs in column order, none overlapping, each
/// with text and each drawing something.
pub open spec fn row_shaped(runs: Seq<RunView>) -> bool {
    &&& runs_in_order(runs)
    &&& forall|k: int| 0 <= k < runs.len() ==> (#[trigger] runs[k]).text.len() > 0 && !run_is_blank(runs[k])
}

proof fn lemma_merged_in_order(cells: Seq<Cell>)
    requires
        cols_of(cells) <= usize::MAX,
    ensures
        runs_in_order(merged_runs(cells)),
    decreases cells.len(),
{
    if cells.len() > 0 {
        lemma_cols_prefix(cells, cells.len() - 1);
        assert(cells.take(cells.len() - 1) =~= cells.drop_last());
        lemma_merged_in_order(cells.drop_last());
        lemma_merged_bounded(cells.drop_last());
        let prev = merged_runs(cells.drop_last());
        let cell = cells.last();
        let col = cols_of(cells.drop_last()) as int;
        let runs = merged_runs(cells);
        if cell.width == 0 {
        } else if extends(prev, cell, col) {
            let n = prev.len() - 1;
            assert forall|i: int, j: int|
                #![trigger runs[i], runs[j]]
                0 <= i < j < runs.len() implies runs[i].col + runs[i].width <= runs[j].col by {
                assert(runs[i] == prev[i]);
                if j < n {
                    assert(runs[j] == prev[j]);
                } else {
                    assert(runs[j].col == prev[n].col);
                    assert(prev[i] == prev[i] && prev[n] == prev[n]);
                }
            }
        } else {
            assert forall|i: int, j: int|
                #![trigger runs[i], runs[j]]
                0 <= i < j < runs.len() implies runs[i].col + runs[i].width <= runs[j].col by {
                assert(runs[i] == prev[i]);
                if j < prev.len() {
                    assert(runs[j] == prev[j]);
                } else {
                    assert(runs[j].col == col);
                    assert(prev[i].col + prev[i].width <= col);
                }
            }
        }
    }
}

proof fn lemma_visible_in_order(runs: Seq<RunView>)
    requires
        runs_in_order(runs),
    ensures
        runs_in_order(visible_runs(runs)),
        forall|k: int| 0 <= k < visible_runs(runs).len() ==> !run_is_blank(#[trigger] visible_runs(runs)[k]),
    decreases runs.len(),
{
    lemma_visible_from(runs);
    if runs.len() > 0 {
        let prev = runs.drop_last();
        assert(runs_in_order(prev)) by {
            assert forall|i: int, j: int|
                #![trigger prev[i], prev[j]]
                0 <= i < j < prev.len() implies prev[i].col + prev[i].width <= prev[j].col by {
                assert(prev[i] == runs[i] && prev[j] == runs[j]);
            }
        }
        lemma_visible_in_order(prev);
        lemma_visible_from(prev);
        let vp = visible_runs(prev);
        let vis = visible_runs(runs);
        if !run_is_blank(runs.last()) {
            assert forall|i: int, j: int|
                #![trigger vis[i], vis[j]]
                0 <= i < j < vis.len() implies vis[i].col + vis[i].width <= vis[j].col by {
                assert(vis[i] == vp[i]);
                if j < vp.len() {
                    assert(vis[j] == vp[j]);
                } else {
                    let m = choose|m: int| 0 <= m < prev.len() && prev[m] == #[trigger] vp[i] && !run_is_blank(prev[m]);
                    assert(runs[m] == prev[m]);
                    assert(vis[j] == runs[runs.len() - 1]);
                }
            }
        }
    }
}

proof fn lemma_trimmed_shape(cells: Seq<Cell>)
    requires
        cols_of(cells) <= usize::MAX,
    ensures
        row_shaped(line_runs(cells)),
{
    lemma_merged_in_order(cells);
    lemma_merged_bounded(cells);
    let merged = merged_runs(cells);
    let trimmed = trim_last(merged);
    assert(runs_in_order(trimmed)) by {
        assert forall|i: int, j: int|
            #![trigger trimmed[i], trimmed[j]]
            0 <= i < j < trimmed.len() implies trimmed[i].col + trimmed[i].width <= trimmed[j].col by {
            assert(trimmed[i] == merged[i]);
            assert(trimmed[j].col == merged[j].col);
            assert(merged[i] == merged[i] && merged[j] == merged[j]);
        }
    }
    assert forall|k: int| 0 <= k < trimmed.len() && !run_is_blank(#[trigger] trimmed[k]) implies trimmed[k].text.len()
        > 0 by {
        assert(merged[k].text.len() >= 1);
        if trimmed[k].text.len() == 0 {
            assert(trimmed[k] != merged[k]);
            assert(all_spaces(trimmed[k].text));
        }
    }
    lemma_visible_in_order(trimmed);
    lemma_visible_from(trimmed);
    let vis = visible_runs(trimmed);
    assert forall|k: int| 0 <= k < vis.len() implies (#[trigger] vis[k]).text.len() > 0 && !run_is_blank(vis[k]) by {
        let j = choose|j: int| 0 <= j < trimmed.len() && trimmed[j] == #[trigger] vis[k] && !run_is_blank(trimmed[j]);
    }
}

/// Cells as a terminal holds them: one, two or (for the column a wide
/// character spills into) zero columns wide.
pub open spec fn cells_fit_grid(cells: Seq<Cell>) -> bool {
    forall|k: int| 0 <= k < cells.len() ==> (#[trigger] cells[k]).width <= 2
}

/// A wide run is one character over two columns; any other run takes one
/// column per character.
pub open spec fn run_sized(r: RunView) -> bool {
    if r.wide {
        r.text.len() == 1 && r.width == 2
    } else {
        r.width == r.text.len()
    }
}

/// Two runs share colours and style.
pub open spec fn same_run_style(a: RunView, b: RunView) -> bool {
    &&& a.fg == b.fg
    &&& a.bg == b.bg
    &&& a.faint == b.faint
    &&& a.bold == b.bold
    &&& a.italic == b.italic
    &&& a.underline == b.underline
    &&& a.strikethrough == b.strikethrough
}

/// Next-door narrow runs that touch differ in style (else they would be
/// one run).
pub open spec fn neighbours_differ(runs: Seq<RunView>) -> bool {
    forall|i: int, j: int|
        #![trigger runs[i], runs[j]]
        0 <= i && j == i + 1 && j < runs.len() && !runs[i].wide && !runs[j].wide && runs[i].col
            + runs[i].width == runs[j].col ==> !same_run_style(runs[i], runs[j])
}

proof fn lemma_merged_sized(cells: Seq<Cell>)
    requires
        cells_fit_grid(cells),
        cols_of(cells) <= usize::MAX,
    ensures
        forall|k: int| 0 <= k < merged_runs(cells).len() ==> run_sized(#[trigger] merged_runs(cells)[k]),
        neighbours_differ(merged_runs(cells)),
    decreases cells.len(),
{
    if cells.len() > 0 {
        assert(cells_fit_grid(cells.drop_last())) by {
            assert forall|k: int| 0 <= k < cells.drop_last().len() implies (#[trigger] cells.drop_last()[k]).width
                <= 2 by {
                assert(cells.drop_last()[k] == cells[k]);
            }
        }
        lemma_cols_prefix(cells, cells.len() - 1);
        assert(cells.take(cells.len() - 1) =~= cells.drop_last());
        lemma_merged_sized(cells.drop_last());
        lemma_merged_bounded(cells.drop_last());
        let prev = merged_runs(cells.drop_last());
        let cell = cells.last();
        assert(cell.width <= 2) by {
            assert(cells[cells.len() - 1] == cell);
        }
        let col = cols_of(cells.drop_last()) as int;
        let runs = merged_runs(cells);
        if cell.width == 0 {
        } else if extends(prev, cell, col) {
            let n = prev.len() - 1;
            let last = prev.last();
            assert(last == prev[n]);
            assert(runs == prev.update(
                n,
                RunView { text: last.text.push(cell.ch), width: (last.width + 1) as usize, ..last },
            ));
            assert(last.col + last.width <= cols_of(cells.drop_last()));
            assert forall|k: int| 0 <= k < runs.len() implies run_sized(#[trigger] runs[k]) by {
                if k < n {
                    assert(runs[k] == prev[k]);
                } else {
                    assert(run_sized(prev[n]));
                    assert(cell.width == 1);
                }
            }
            assert forall|i: int, j: int|
                #![trigger runs[i], runs[j]]
                0 <= i && j == i + 1 && j < runs.len() && !runs[i].wide && !runs[j].wide && runs[i].col
                    + runs[i].width == runs[j].col implies !same_run_style(runs[i], runs[j]) by {
                assert(runs[i] == prev[i]);
                if j < n {
                    assert(runs[j] == prev[j]);
                } else {
                    assert(prev[i] == prev[i] && prev[j] == prev[j]);
                }
            }
        } else {
            let r = new_run(col, cell, attrs_of(cell.pen));
            assert(runs == prev.push(r));
            assert forall|k: int| 0 <= k < runs.len() implies run_sized(#[trigger] runs[k]) by {
                if k < prev.len() {
                    assert(runs[k] == prev[k]);
                }
            }
            assert forall|i: int, j: int|
                #![trigger runs[i], runs[j]]
                0 <= i && j == i + 1 && j < runs.len() && !runs[i].wide && !runs[j].wide && runs[i].col
                    + runs[i].width == runs[j].col implies !same_run_style(runs[i], runs[j]) by {
                assert(runs[i] == prev[i]);
                if j < prev.len() {
                    assert(runs[j] == prev[j]);
                } else {
                    assert(runs[j] == r);
                    assert(prev.last() == prev[i]);
                    assert(r.col == col);
                    assert(!extends(prev, cell, col));
                }
            }
        }
    }
}

/// The full shape of a rendered row: in order, non-overlapping, every run
/// drawing something, sized by its characters, and next-door narrow runs
/// that touch differing in style.
pub open spec fn row_fully_shaped(runs: Seq<RunView>) -> bool {
    &&& row_shaped(runs)
    &&& forall|k: int| 0 <= k < runs.len() ==> run_sized(#[trigger] runs[k])
    &&& neighbours_differ(runs)
}

proof fn lemma_line_fully_shaped(cells: Seq<Cell>)
    requires
        cols_of(cells) <= usize::MAX,
        cells_fit_grid(cells),
    ensures
        row_fully_shaped(line_runs(cells)),
{
    lemma_trimmed_shape(cells);
    lemma_merged_in_order(cells);
    lemma_merged_bounded(cells);
    lemma_merged_sized(cells);
    let merged = merged_runs(cells);
    let trimmed = trim_last(merged);
    let n = merged.len() - 1;
    // Facts about the trimmed runs.
    assert forall|k: int| 0 <= k < trimmed.len() && !run_is_blank(#[trigger] trimmed[k]) implies run_sized(
        trimmed[k],
    ) && trimmed[k].text.len() > 0 by {
        assert(run_sized(merged[k]));
        assert(merged[k].text.len() >= 1);
        let r = merged.last();
        if k == n && r.bg is None && !r.underline && !r.strikethrough {
            let t = trim_spaces(r.text);
            assert(merged[n] == r);
            assert(trimmed[k] == RunView { text: t, width: (r.width - (r.text.len() - t.len())) as usize, ..r });
            if r.wide {
                if r.text[0] == ' ' {
                    assert(r.text.drop_last().len() == 0);
                    assert(trim_spaces(r.text.drop_last()) == r.text.drop_last());
                    assert(all_spaces(trimmed[k].text));
                } else {
                    assert(t == r.text);
                }
            } else {
                lemma_trim_spaces_prefix(r.text);
                if t.len() == 0 {
                    assert(all_spaces(trimmed[k].text));
                }
            }
        } else {
            assert(trimmed[k] == merged[k]);
        }
    }
    assert forall|k: int| 0 <= k < trimmed.len() - 1 implies (#[trigger] trimmed[k]).width >= 1 by {
        assert(trimmed[k] == merged[k]);
        assert(merged[k].text.len() >= 1);
    }
    assert(runs_in_order(trimmed)) by {
        assert forall|i: int, j: int|
            #![trigger trimmed[i], trimmed[j]]
            0 <= i < j < trimmed.len() implies trimmed[i].col + trimmed[i].width <= trimmed[j].col by {
            assert(trimmed[i] == merged[i]);
            assert(trimmed[j].col == merged[j].col);
            assert(merged[i] == merged[i] && merged[j] == merged[j]);
        }
    }
    assert(neighbours_differ(trimmed)) by {
        assert forall|i: int, j: int|
            #![trigger trimmed[i], trimmed[j]]
            0 <= i && j == i + 1 && j < trimmed.len() && !trimmed[i].wide && !trimmed[j].wide
                && trimmed[i].col + trimmed[i].width == trimmed[j].col implies !same_run_style(
            trimmed[i],
            trimmed[j],
        ) by {
            assert(trimmed[i] == merged[i]);
            assert(trimmed[j].col == merged[j].col && same_run_style(trimmed[j], merged[j])
                && trimmed[j].wide == merged[j].wide);
            assert(merged[i] == merged[i] && merged[j] == merged[j]);
        }
    }
    lemma_visible_from(trimmed);
    lemma_visible_in_order(trimmed);
    let vis = visible_runs(trimmed);
    assert forall|k: int| 0 <= k < vis.len() implies run_sized(#[trigger] vis[k]) by {
        let j = choose|j: int| 0 <= j < trimmed.len() && trimmed[j] == #[trigger] vis[k] && !run_is_blank(trimmed[j]);
    }
    assert forall|i: int, j: int|
        #![trigger vis[i], vis[j]]
        0 <= i && j == i + 1 && j < vis.len() && !vis[i].wide && !vis[j].wide && vis[i].col + vis[i].width
            == vis[j].col implies !same_run_style(vis[i], vis[j]) by {
        let a = choose|a: int| 0 <= a < trimmed.len() && trimmed[a] == #[trigger] vis[i] && !run_is_blank(trimmed[a]);
        let b = choose|b: int| 0 <= b < trimmed.len() && trimmed[b] == #[trigger] vis[j] && !run_is_blank(trimmed[b]);
        assert(run_sized(trimmed[a]) && trimmed[a].text.len() > 0);
        assert(run_sized(trimmed[b]) && trimmed[b].text.len() > 0);
        assert(vis[i].col + vis[i].width <= vis[j].col);
        if b < a {
            assert(trimmed[b].col + trimmed[b].width <= trimmed[a].col);
            assert(false);
        } else if b == a {
            assert(false);
        } else if b > a + 1 {
            let m = a + 1;
            assert(trimmed[a].col + trimmed[a].width <= trimmed[m].col);
            assert(trimmed[m].col + trimmed[m].width <= trimmed[b].col);
            assert(trimmed[m].width >= 1);
            assert(false);
        } else {
            assert(trimmed[a] == trimmed[a] && trimmed[b] == trimmed[b]);
        }
    }
}

proof fn lemma_trim_spaces_prefix(s: Seq<char>)
    ensures
        trim_spaces(s).len() <= s.len(),
    decreases s.len(),
{
    if s.len() > 0 && s.last() == ' ' {
        lemma_trim_spaces_prefix(s.drop_last());
    }
}

/// Every row of the interpreted screen, read from cells a terminal holds,
/// has the full rendered shape: ordered, non-overlapping, each run drawing
/// something, sized by its characters (one column each, a wide character
/// two), and next-door narrow runs that touch differing in style.
pub proof fn interpreted_rows_are_fully_shaped(bytes: Seq<u8>, cols: nat, rows: nat)
    requires
        ({
            let lines = vt_cell_lines(normalize_newlines_spec(lossy_utf8(bytes)), cols, rows, SCROLLBACK_LIMIT as nat);
            forall|i: int| 0 <= i < lines.len() ==> cells_fit_grid(#[trigger] lines[i])
        }),
    ensures
        forall|k: int|
            0 <= k < interpreted_rows(bytes, cols, rows).len() ==> row_fully_shaped(
                #[trigger] interpreted_rows(bytes, cols, rows)[k],
            ),
{
    let text = normalize_newlines_spec(lossy_utf8(bytes));
    let lines = vt_cell_lines(text, cols, rows, SCROLLBACK_LIMIT as nat);
    let all = lines.map_values(|l: Seq<Cell>| fitting_line_runs(l));
    lemma_trim_rows_prefix(all);
    let n = choose|n: int| 0 <= n <= all.len() && trim_empty_rows(all) == #[trigger] all.take(n);
    let out = interpreted_rows(bytes, cols, rows);
    assert(out == all.take(n));
    assert forall|k: int| 0 <= k < out.len() implies row_fully_shaped(#[trigger] out[k]) by {
        assert(out[k] == all[k]);
        assert(all[k] == fitting_line_runs(lines[k]));
        if cols_of(lines[k]) <= usize::MAX {
            lemma_line_fully_shaped(lines[k]);
        } else {
            assert(fitting_line_runs(lines[k]) =~= Seq::<RunView>::empty());
        }
    }
}

proof fn lemma_trim_rows_prefix(rows: Seq<Seq<RunView>>)
    ensures
        exists|n: int| 0 <= n <= rows.len() && trim_empty_rows(rows) == #[trigger] rows.take(n),
        trim_empty_rows(rows).len() > 0 ==> trim_empty_rows(rows).last().len() > 0,
    decreases rows.len(),
{
    if rows.len() > 0 && rows.last().len() == 0 {
        lemma_trim_rows_prefix(rows.drop_last());
        let n = choose|n: int| 0 <= n <= rows.drop_last().len() && trim_empty_rows(rows.drop_last()) == #[trigger] rows.drop_last().take(n);
        assert(rows.drop_last().take(n) =~= rows.take(n));
    } else {
        assert(rows.take(rows.len() as int) =~= rows);
    }
}

/// Interpreted output has the shape a renderer relies on: height follows
/// content (the last row, if any, draws something), and in every row the
/// runs come in column order without overlapping, each holding text and
/// drawing something.
pub proof fn interpreted_rows_are_shaped(bytes: Seq<u8>, cols: nat, rows: nat)
    ensures
        interpreted_rows(bytes, cols, rows).len() > 0 ==> interpreted_rows(bytes, cols, rows).last().len()
            > 0,
        forall|k: int|
            0 <= k < interpreted_rows(bytes, cols, rows).len() ==> row_shaped(
                #[trigger] interpreted_rows(bytes, cols, rows)[k],
            ),
{
    let text = normalize_newlines_spec(lossy_utf8(bytes));
    let lines = vt_cell_lines(text, cols, rows, SCROLLBACK_LIMIT as nat);
    let all = lines.map_values(|l: Seq<Cell>| fitting_line_runs(l));
    lemma_trim_rows_prefix(all);
    let n = choose|n: int| 0 <= n <= all.len() && trim_empty_rows(all) == #[trigger] all.take(n);
    let out = interpreted_rows(bytes, cols, rows);
    assert(out == all.take(n));
    assert forall|k: int| 0 <= k < out.len() implies row_shaped(#[trigger] out[k]) by {
        assert(out[k] == all[k]);
        assert(all[k] == fitting_line_runs(lines[k]));
        if cols_of(lines[k]) <= usize::MAX {
            lemma_trimmed_shape(lines[k]);
        } else {
            assert(fitting_line_runs(lines[k]) =~= Seq::<RunView>::empty());
        }
    }
}

fn same_attrs(r: &StyledRun, a: &Attrs) -> (b: bool)
    ensures
        b == same_style(r@, *a),
{
    r.fg == a.fg && r.bg == a.bg && r.faint == a.faint && r.bold == a.bold && r.italic
        == a.italic && r.underline == a.underline && r.strikethrough == a.strikethrough
}

fn trailing_spaces(chars: &Vec<char>) -> (n: usize)
    ensures
        n <= chars@.len(),
        trim_spaces(chars@) == chars@.take(chars@.len() - n),
{
    let mut n: usize = 0;
    assert(chars@.take(chars@.len() - n) =~= chars@);
    while n < chars.len() && chars[chars.len() - 1 - n] == ' '
        invariant
            n <= chars@.len(),
            trim_spaces(chars@) == trim_spaces(chars@.take(chars@.len() - n)),
        decreases chars@.len() - n,
    {
        let ghost t = chars@.take(chars@.len() - n);
        assert(t.last() == chars@[chars@.len() - 1 - n]);
        assert(t.drop_last() =~= chars@.take(chars@.len() - n - 1));
        n += 1;
    }
    let ghost t = chars@.take(chars@.len() - n);
    if n < chars.len() {
        assert(t.last() == chars@[chars@.len() - 1 - n]);
    }
    n
}

/// The styled runs of one grid row, in column order: maximal runs of
/// adjacent narrow cells with identical resolved attributes, wide
/// characters on their own, trailing blanks trimmed, invisible runs dropped.
pub fn runs_for_line(cells: &[Cell]) -> (runs: Vec<StyledRun>)
    requires
        cols_of(cells@) <= usize::MAX,
    ensures
        runs@.map_values(|r: StyledRun| r@) == line_runs(cells@),
{
    let mut runs: Vec<StyledRun> = Vec::new();
    let mut col: usize = 0;
    let mut i: usize = 0;
    while i < cells.len()
        invariant
            i <= cells@.len(),
            cols_of(cells@) <= usize::MAX,
            col == cols_of(cells@.take(i as int)),
            runs@.map_values(|r: StyledRun| r@) == merged_runs(cells@.take(i as int)),
        decreases cells@.len() - i,
    {
        let ghost pre = cells@.take(i as int);
        let ghost prev = runs@.map_values(|r: StyledRun| r@);
        assert(cells@.take(i + 1).drop_last() =~= pre);
        assert(cells@.take(i + 1).last() == cells@[i as int]);
        proof {
            lemma_cols_prefix(cells@, i + 1);
            lemma_merged_bounded(pre);
        }
        let cell = cells[i];
        let cell_width = cell.width as usize;
        if cell_width != 0 {
            let attrs = resolve(&cell.pen);
            let wide = cell_width == 2;
            let n = runs.len();
            let mergeable = !wide && n > 0 && !runs[n - 1].wide && runs[n - 1].col
                + runs[n - 1].width == col && same_attrs(&runs[n - 1], &attrs);
            proof {
                if n > 0 {
                    assert(prev.last() == runs@[n - 1]@);
                }
            }
            assert(mergeable == extends(prev, cell, col as int));
            if mergeable {
                let mut last = runs.pop().unwrap();
                assert(prev.last() == last@);
                assert(last.width <= col);
                push_char(&mut last.text, cell.ch);
                last.width = last.width + 1;
                runs.push(last);
                assert(runs@.map_values(|r: StyledRun| r@) =~= prev.update(
                    prev.len() - 1,
                    RunView {
                        text: prev.last().text.push(cell.ch),
                        width: (prev.last().width + 1) as usize,
                        ..prev.last()
                    },
                ));
            } else {
                let mut text = String::new();
                push_char(&mut text, cell.ch);
                let run = StyledRun {
                    col,
                    width: cell_width,
                    text,
                    fg: attrs.fg,
                    bg: attrs.bg,
                    faint: attrs.faint,
                    bold: attrs.bold,
                    italic: attrs.italic,
                    underline: attrs.underline,
                    strikethrough: attrs.strikethrough,
                    wide,
                };
                assert(text@ =~= seq![cell.ch]);
                runs.push(run);
                assert(runs@.map_values(|r: StyledRun| r@) =~= prev.push(
                    new_run(col as int, cell, attrs_of(cell.pen)),
                ));
            }
        }
        col = col + cell_width;
        i += 1;
    }
    assert(cells@.take(i as int) =~= cells@);
    let ghost merged = merged_runs(cells@);
    proof {
        lemma_merged_bounded(cells@);
    }
    // Trim trailing blanks from the last run.
    let n = runs.len();
    if n > 0 && runs[n - 1].bg.is_none() && !runs[n - 1].underline && !runs[n - 1].strikethrough {
        let mut last = runs.pop().unwrap();
        assert(merged.last() == last@);
        let chars = to_chars(last.text.as_str());
        let removed = trailing_spaces(&chars);
        let keep = chars.len() - removed;
        last.text = string_from_chars(&chars.as_slice()[0..keep]);
        assert(last.text@ =~= trim_spaces(merged.last().text));
        last.width = last.width - removed;
        runs.push(last);
        assert(runs@.map_values(|r: StyledRun| r@) =~= trim_last(merged));
    } else {
        assert(runs@.map_values(|r: StyledRun| r@) =~= trim_last(merged));
    }
    // Drop invisible runs.
    let ghost trimmed = trim_last(merged);
    let mut out: Vec<StyledRun> = Vec::new();
    let mut k: usize = 0;
    while k < runs.len()
        invariant
            k <= runs@.len(),
            runs@.map_values(|r: StyledRun| r@) == trimmed,
            out@.map_values(|r: StyledRun| r@) == visible_runs(trimmed.take(k as int)),
        decreases runs@.len() - k,
    {
        let ghost before = out@.map_values(|r: StyledRun| r@);
        assert(trimmed.take(k + 1).drop_last() =~= trimmed.take(k as int));
        assert(trimmed.take(k + 1).last() == runs@[k as int]@);
        if !runs[k].is_blank() {
            out.push(crate::term::screen::copy_run(&runs[k]));
            assert(out@.map_values(|r: StyledRun| r@) =~= before.push(runs@[k as int]@));
        }
        k += 1;
    }
    assert(trimmed.take(k as int) =~= trimmed);
    out
}

} // verus!

verus! {

#[verifier::external_type_specification]
#[verifier::external_body]
pub struct ExTerminal(avt::Terminal);

/// What `String::from_utf8_lossy` decodes `bytes` to.
pub uninterp spec fn lossy_utf8(bytes: Seq<u8>) -> Seq<char>;

/// Decodes bytes as UTF-8, replacing invalid sequences with U+FFFD
/// (`String::from_utf8_lossy`). Valid UTF-8 decodes exactly.
#[verifier::external_body]
fn decode_lossy(bytes: &[u8]) -> (s: String)
    ensures
        s@ == lossy_utf8(bytes@),
        vstd::utf8::valid_utf8(bytes@) ==> s@ == vstd::utf8::decode_utf8(bytes@),
{
    String::from_utf8_lossy(bytes).into_owned()
}

/// The cells of every line — scrollback, then the visible screen — after a
/// fresh `avt` terminal of `cols`×`rows` keeping `scrollback` lines has
/// been fed `text`: each cell's character, width and pen.
pub uninterp spec fn vt_cell_lines(text: Seq<char>, cols: nat, rows: nat, scrollback: nat) -> Seq<
    Seq<Cell>,
>;

/// The lines of cells, each as a sequence.
pub open spec fn cell_lines(lines: Seq<Vec<Cell>>) -> Seq<Seq<Cell>> {
    lines.map_values(|l: Vec<Cell>| l@)
}

/// Feeds `text` to a new `avt::Terminal` (`with_scrollback`, `feed`) and
/// reads each cell's `char()`, `width()` and `pen()` over
/// `screen().all_lines()`. The emulator rejects a zero size; then no line
/// is read. A cell's `width()` is 1, 2 (the head of a wide character) or
/// 0 (the column it spills into).
#[verifier::external_body]
fn vt_cells(text: &str, cols: usize, rows: usize, scrollback: usize) -> (lines: Vec<Vec<Cell>>)
    ensures
        cell_lines(lines@) == vt_cell_lines(text@, cols as nat, rows as nat, scrollback as nat),
        forall|i: int| 0 <= i < lines@.len() ==> cells_fit_grid(#[trigger] cell_lines(lines@)[i]),
{
    let Ok(mut vt) = avt::Terminal::with_scrollback(cols, rows, Some(scrollback)) else {
        return Vec::new();
    };
    vt.feed(text);
    vt.screen()
        .all_lines()
        .map(|l| l.cells().iter().map(|c| Cell { ch: c.char(), width: c.width(), pen: pen_of(c.pen()) }).collect())
        .collect()
}

#[verifier::external_type_specification]
#[verifier::external_body]
pub struct ExPen(avt::Pen);

#[verifier::external_type_specification]
#[verifier::external_body]
pub struct ExColor(avt::Color);

/// Reads an `avt::Pen` as plain values: its colours, intensity and the
/// italic/underline/strikethrough/inverse flags.
#[verifier::external_body]
fn pen_of(p: &avt::Pen) -> VtPen {
    VtPen {
        fg: p.foreground().map(color_of),
        bg: p.background().map(color_of),
        bold: p.is_bold(),
        faint: p.is_faint(),
        italic: p.is_italic(),
        underline: p.is_underline(),
        strikethrough: p.is_strikethrough(),
        inverse: p.is_inverse(),
    }
}

/// An `avt::Color` as a plain value, variant by variant.
#[verifier::external_body]
fn color_of(c: avt::Color) -> VtColor {
    match c {
        avt::Color::Indexed(i) => VtColor::Indexed(i),
        avt::Color::RGB(c) => VtColor::Rgb(Rgb { r: c.r, g: c.g, b: c.b }),
    }
}

/// Scrollback kept while interpreting a capture.
pub const SCROLLBACK_LIMIT: usize = 100000;

/// The runs of a line whose columns fit in a `usize` (every real line).
pub open spec fn fitting_line_runs(cells: Seq<Cell>) -> Seq<RunView> {
    if cols_of(cells) <= usize::MAX {
        line_runs(cells)
    } else {
        seq![]
    }
}

/// Rows without the trailing empty ones.
pub open spec fn trim_empty_rows(rows: Seq<Seq<RunView>>) -> Seq<Seq<RunView>>
    decreases rows.len(),
{
    if rows.len() > 0 && rows.last().len() == 0 {
        trim_empty_rows(rows.drop_last())
    } else {
        rows
    }
}

/// The screen a capture resolves to.
pub open spec fn interpreted_rows(bytes: Seq<u8>, cols: nat, rows: nat) -> Seq<Seq<RunView>> {
    let text = normalize_newlines_spec(lossy_utf8(bytes));
    let lines = vt_cell_lines(text, cols, rows, SCROLLBACK_LIMIT as nat);
    trim_empty_rows(lines.map_values(|l: Seq<Cell>| fitting_line_runs(l)))
}

fn cols_fit(cells: &Vec<Cell>) -> (b: bool)
    ensures
        b == (cols_of(cells@) <= usize::MAX),
{
    let mut total: usize = 0;
    let mut i: usize = 0;
    while i < cells.len()
        invariant
            i <= cells@.len(),
            total == cols_of(cells@.take(i as int)),
        decreases cells@.len() - i,
    {
        assert(cells@.take(i + 1).drop_last() =~= cells@.take(i as int));
        match total.checked_add(cells[i].width as usize) {
            Some(t) => total = t,
            None => {
                proof {
                    lemma_cols_prefix(cells@, i + 1);
                }
                return false;
            },
        }
        i += 1;
    }
    assert(cells@.take(i as int) =~= cells@);
    true
}

/// The runs of each line of cells read from a terminal.
fn rows_of(lines: &Vec<Vec<Cell>>) -> (out: Vec<Vec<StyledRun>>)
    ensures
        rows_view(out@) == cell_lines(lines@).map_values(|l: Seq<Cell>| fitting_line_runs(l)),
{
    let ghost ls = cell_lines(lines@);
    let mut out: Vec<Vec<StyledRun>> = Vec::new();
    let mut i: usize = 0;
    while i < lines.len()
        invariant
            i <= lines@.len(),
            ls == cell_lines(lines@),
            rows_view(out@) == ls.take(i as int).map_values(|l: Seq<Cell>| fitting_line_runs(l)),
        decreases lines@.len() - i,
    {
        let cells = &lines[i];
        assert(ls[i as int] == cells@);
        let runs = if cols_fit(cells) {
            runs_for_line(cells.as_slice())
        } else {
            let empty: Vec<StyledRun> = Vec::new();
            assert(empty@.map_values(|r: StyledRun| r@) =~= Seq::<RunView>::empty());
            empty
        };
        assert(runs@.map_values(|r: StyledRun| r@) == fitting_line_runs(ls[i as int]));
        let ghost before = out@;
        out.push(runs);
        assert(out@ == before.push(runs));
        assert(rows_view(out@) =~= rows_view(before).push(runs@.map_values(|r: StyledRun| r@)));
        assert(ls.take(i + 1).map_values(|l: Seq<Cell>| fitting_line_runs(l)) =~= ls.take(
            i as int,
        ).map_values(|l: Seq<Cell>| fitting_line_runs(l)).push(fitting_line_runs(ls[i as int])));
        i += 1;
    }
    assert(ls.take(i as int) =~= ls);
    out
}

/// Feed captured bytes through a virtual terminal and return the resolved
/// final screen (scrollback + visible view), ready for rendering. Output
/// height follows content: trailing empty rows are dropped.
pub fn interpret(bytes: &[u8], cols: usize, rows: usize) -> (screen: Screen)
    ensures
        screen.cols == cols,
        rows_view(screen.rows@) == interpreted_rows(bytes@, cols as nat, rows as nat),
        forall|k: int| 0 <= k < screen.rows@.len() ==> row_fully_shaped(#[trigger] rows_view(screen.rows@)[k]),
        screen.rows@.len() > 0 ==> rows_view(screen.rows@).last().len() > 0,
{
    let decoded = decode_lossy(bytes);
    let text = normalize_newlines(decoded.as_str());
    let lines = vt_cells(text.as_str(), cols, rows, SCROLLBACK_LIMIT);
    proof {
        interpreted_rows_are_fully_shaped(bytes@, cols as nat, rows as nat);
        interpreted_rows_are_shaped(bytes@, cols as nat, rows as nat);
    }
    let mut out = rows_of(&lines);
    // Output height follows content: drop trailing empty rows.
    let ghost all = rows_view(out@);
    while out.len() > 0 && out[out.len() - 1].len() == 0
        invariant
            trim_empty_rows(rows_view(out@)) == trim_empty_rows(all),
        decreases out@.len(),
    {
        let ghost before = out@;
        out.pop();
        assert(rows_view(out@) =~= rows_view(before).drop_last());
    }
    Screen { cols, rows: out }
}

} // verus!

verus! {

/// One step of an animated replay.
pub ghost enum VtStep {
    /// Recorded output fed as is.
    Feed(Seq<char>),
    /// A terminal resize to `cols`×`rows`.
    Resize(nat, nat),
}

/// The visible cells (character, width and pen) after an `avt` terminal of
/// `cols`×`rows` without scrollback has replayed `steps`.
pub uninterp spec fn replay_cells(cols: nat, rows: nat, steps: Seq<VtStep>) -> Seq<Seq<Cell>>;

/// The cursor's (column, row) after the replay, when it is visible.
pub uninterp spec fn replay_cursor(cols: nat, rows: nat, steps: Seq<VtStep>) -> Option<(usize, usize)>;

/// The terminal's column count after the replay.
pub uninterp spec fn replay_width(cols: nat, rows: nat, steps: Seq<VtStep>) -> usize;

/// Incremental interpreter for animated replays: feed recorded output
/// chunks one at a time and snapshot the visible screen between them.
pub struct Interpreter {
    vt: avt::Terminal,
    size: Ghost<(nat, nat)>,
    steps: Ghost<Seq<VtStep>>,
}

impl Interpreter {
    /// The size the terminal started at.
    pub closed spec fn start(&self) -> (nat, nat) {
        self.size@
    }

    /// Everything replayed so far, in order.
    pub closed spec fn history(&self) -> Seq<VtStep> {
        self.steps@
    }

    /// Calls `avt::Terminal::new(cols, rows)` (no scrollback: replays
    /// render the viewport only). Claimed: nothing has been replayed yet.
    #[verifier::external_body]
    fn open(cols: usize, rows: usize) -> (vt: Interpreter)
        requires
            cols > 0 && rows > 0,
        ensures
            vt.start() == (cols as nat, rows as nat),
            vt.history() == Seq::<VtStep>::empty(),
    {
        let vt = avt::Terminal::new(cols, rows).expect("positive terminal size");
        Interpreter { vt, size: Ghost((cols as nat, rows as nat)), steps: Ghost(Seq::empty()) }
    }

    /// Calls `avt::Terminal::feed`. Claimed: the replay gained this step.
    #[verifier::external_body]
    fn replay_feed(&mut self, data: &str)
        ensures
            final(self).start() == old(self).start(),
            final(self).history() == old(self).history().push(VtStep::Feed(data@)),
    {
        self.vt.feed(data);
    }

    /// Calls `avt::Terminal::resize`. Claimed: the replay gained this step.
    #[verifier::external_body]
    fn replay_resize(&mut self, cols: usize, rows: usize)
        ensures
            final(self).start() == old(self).start(),
            final(self).history() == old(self).history().push(VtStep::Resize(cols as nat, rows as nat)),
    {
        self.vt.resize(cols, rows);
    }

    /// Reads each visible cell's `char()`, `width()` and `pen()` over
    /// `screen().visible_lines()`. Claimed: they are `replay_cells` of the
    /// replay so far.
    #[verifier::external_body]
    fn view_cells(&self) -> (lines: Vec<Vec<Cell>>)
        ensures
            cell_lines(lines@) == replay_cells(self.start().0, self.start().1, self.history()),
    {
        self.vt
            .screen()
            .visible_lines()
            .map(|l| l.cells().iter().map(|c| Cell { ch: c.char(), width: c.width(), pen: pen_of(c.pen()) }).collect())
            .collect()
    }

    /// Calls `avt::Terminal::cursor().position()`. Claimed: it is
    /// `replay_cursor` of the replay so far.
    #[verifier::external_body]
    fn view_cursor(&self) -> (c: Option<(usize, usize)>)
        ensures
            c == replay_cursor(self.start().0, self.start().1, self.history()),
    {
        self.vt.cursor().position()
    }

    /// Calls `avt::Terminal::size()` for the column count. Claimed: it is
    /// `replay_width` of the replay so far.
    #[verifier::external_body]
    fn view_width(&self) -> (cols: usize)
        ensures
            cols == replay_width(self.start().0, self.start().1, self.history()),
    {
        self.vt.size().0
    }

    /// A fresh interpreter of `cols`×`rows`.
    pub fn new(cols: usize, rows: usize) -> (vt: Interpreter)
        requires
            cols > 0 && rows > 0,
        ensures
            vt.start() == (cols as nat, rows as nat),
            vt.history() == Seq::<VtStep>::empty(),
    {
        Interpreter::open(cols, rows)
    }

    /// Feeds raw recorded output. Unlike `interpret`, newlines are not
    /// normalized: asciicast data came off a PTY, where ONLCR already
    /// produced `\r\n`.
    pub fn feed(&mut self, data: &str)
        ensures
            final(self).start() == old(self).start(),
            final(self).history() == old(self).history().push(VtStep::Feed(data@)),
    {
        self.replay_feed(data);
    }

    pub fn resize(&mut self, cols: usize, rows: usize)
        ensures
            final(self).start() == old(self).start(),
            final(self).history() == old(self).history().push(VtStep::Resize(cols as nat, rows as nat)),
    {
        self.replay_resize(cols, rows);
    }

    /// Snapshots the visible screen. Trailing blank rows are kept: an
    /// animation canvas has a fixed height.
    pub fn snapshot(&self) -> (screen: Screen)
        ensures
            screen.cols == replay_width(self.start().0, self.start().1, self.history()),
            rows_view(screen.rows@) == replay_cells(self.start().0, self.start().1, self.history()).map_values(
                |l: Seq<Cell>| fitting_line_runs(l),
            ),
    {
        let lines = self.view_cells();
        let rows = rows_of(&lines);
        Screen { cols: self.view_width(), rows }
    }

    /// Cursor grid position, when the cursor is visible.
    pub fn cursor(&self) -> (c: Option<(usize, usize)>)
        ensures
            c == replay_cursor(self.start().0, self.start().1, self.history()),
    {
        self.view_cursor()
    }
}

} // verus!
