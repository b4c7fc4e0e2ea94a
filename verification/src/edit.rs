//! Recording cleanup: masking secrets that a recording caught.
//!
//! Output and input are redacted as separate streams. Each stream is the
//! concatenation of its events' texts, so a secret echoed to the screen is
//! matched across event boundaries, and one typed keystroke by keystroke
//! (one input event per character) still matches as a whole. Every masked
//! character becomes one `*`, so layout and timing are unchanged.
use vstd::prelude::*;

use crate::cast::{EventData, EventView};
use crate::text::{char_utf8_len, char_utf8_width, lemma_utf8_len_append, push_char, to_chars, utf8_len};

verus! {

#[verifier::external_type_specification]
#[verifier::external_body]
pub struct ExRegex(regex_lite::Regex);

/// Whether regex_lite accepts `pattern` (its syntax, within its default size
/// limit).
pub uninterp spec fn regex_compiles(pattern: Seq<char>) -> bool;

/// The byte spans `(start, end)` of the successive non-overlapping matches
/// of `pattern` in `haystack`, as regex_lite's `find_iter` yields them.
pub uninterp spec fn regex_match_spans(pattern: Seq<char>, haystack: Seq<char>) -> Seq<(usize, usize)>;

/// The reason regex_lite gives (its error's `Display` text) for refusing
/// `pattern`.
pub uninterp spec fn regex_error_reason(pattern: Seq<char>) -> Seq<char>;

/// A compiled redaction pattern together with its source text.
pub struct Pattern {
    re: regex_lite::Regex,
    source: String,
}

impl Pattern {
    pub closed spec fn source_view(&self) -> Seq<char> {
        self.source@
    }

    /// The pattern text this was compiled from.
    pub fn source(&self) -> (s: &str)
        ensures
            s@ == self.source_view(),
    {
        self.source.as_str()
    }
}

/// Calls `regex_lite::Regex::new(source)`, and on failure the error's
/// `to_string`. Claimed: it succeeds exactly when `regex_compiles(source)`,
/// the result remembers `source` as its text, and a refusal's text is
/// `regex_error_reason(source)`.
#[verifier::external_body]
fn compile_regex(source: &str) -> (r: Result<Pattern, String>)
    ensures
        r.is_ok() == regex_compiles(source@),
        r matches Ok(p) ==> p.source_view() == source@,
        r matches Err(reason) ==> reason@ == regex_error_reason(source@),
{
    match regex_lite::Regex::new(source) {
        Ok(re) => Ok(Pattern { re, source: source.to_string() }),
        Err(e) => Err(e.to_string()),
    }
}

/// `b` is a byte offset of `s` that falls between two characters (or at
/// either end).
pub open spec fn char_boundary(s: Seq<char>, b: usize) -> bool {
    exists|i: int| 0 <= i <= s.len() && #[trigger] utf8_len(s.take(i)) == b
}

/// Calls `regex_lite::Regex::find_iter` and keeps each match's byte span.
/// Claimed: the spans are `regex_match_spans` of the pattern's text and the
/// haystack, and, as regex_lite documents for `Match::start` and
/// `Match::end`, each has `start <= end <= ` the haystack's UTF-8 length,
/// and both offsets fall on character boundaries.
#[verifier::external_body]
fn find_spans(p: &Pattern, haystack: &str) -> (spans: Vec<(usize, usize)>)
    ensures
        spans@ == regex_match_spans(p.source_view(), haystack@),
        forall|k: int|
            0 <= k < spans@.len() ==> spans@[k].0 <= spans@[k].1 && spans@[k].1 <= utf8_len(
                haystack@,
            ),
        forall|k: int|
            0 <= k < spans@.len() ==> char_boundary(haystack@, #[trigger] spans@[k].0) && char_boundary(
                haystack@,
                spans@[k].1,
            ),
{
    p.re.find_iter(haystack).map(|m| (m.start(), m.end())).collect()
}

/// Why a redaction request was refused.
#[derive(Debug)]
pub enum EditError {
    /// A `--redact` pattern that does not compile, with regex_lite's reason.
    InvalidPattern { pattern: String, reason: String },
}

/// Which events a stream is made of.
#[derive(Debug, Clone, Copy, PartialEq, Eq, Structural)]
pub enum StreamKind {
    /// "o" events: what the terminal showed.
    Output,
    /// "i" events: what was typed or pasted.
    Input,
}

pub open spec fn in_stream(kind: StreamKind, e: EventView) -> bool {
    match kind {
        StreamKind::Output => e is Output,
        StreamKind::Input => e matches EventView::Other { code, .. } && code == seq!['i'],
    }
}

/// The text an event carries (none for a resize).
pub open spec fn text_of(e: EventView) -> Seq<char> {
    match e {
        EventView::Output(t) => t,
        EventView::Resize { .. } => seq![],
        EventView::Other { data, .. } => data,
    }
}

/// `e` with its text replaced by `t`.
pub open spec fn with_text(e: EventView, t: Seq<char>) -> EventView {
    match e {
        EventView::Output(_) => EventView::Output(t),
        EventView::Resize { .. } => e,
        EventView::Other { code, .. } => EventView::Other { code, data: t },
    }
}

pub open spec fn views(v: Seq<EventData>) -> Seq<EventView> {
    v.map_values(|e: EventData| e@)
}

/// The concatenated text of the events of one stream, in order.
pub open spec fn stream_text(events: Seq<EventView>, kind: StreamKind) -> Seq<char>
    decreases events.len(),
{
    if events.len() == 0 {
        seq![]
    } else {
        stream_text(events.drop_last(), kind) + (if in_stream(kind, events.last()) {
            text_of(events.last())
        } else {
            seq![]
        })
    }
}

/// Whether byte offset `b` lies inside one of `spans`.
pub open spec fn span_covers(spans: Seq<(usize, usize)>, b: int) -> bool {
    exists|k: int| 0 <= k < spans.len() && spans[k].0 <= b && b < spans[k].1
}

/// `t`, which starts at byte `base` of its stream, with every character
/// whose first byte is covered by a span replaced by `*`.
pub open spec fn masked(t: Seq<char>, base: int, spans: Seq<(usize, usize)>) -> Seq<char> {
    Seq::new(
        t.len(),
        |j: int|
            if span_covers(spans, base + utf8_len(t.take(j))) {
                '*'
            } else {
                t[j]
            },
    )
}

/// The match spans of all `patterns`, pattern by pattern.
pub open spec fn pattern_spans(patterns: Seq<Seq<char>>, stream: Seq<char>) -> Seq<(usize, usize)>
    decreases patterns.len(),
{
    if patterns.len() == 0 {
        seq![]
    } else {
        pattern_spans(patterns.drop_last(), stream) + regex_match_spans(patterns.last(), stream)
    }
}

pub open spec fn sources(patterns: Seq<Pattern>) -> Seq<Seq<char>> {
    patterns.map_values(|p: Pattern| p.source_view())
}

/// The events after masking `spans` in the `kind` stream.
pub open spec fn redacted(events: Seq<EventView>, kind: StreamKind, spans: Seq<(usize, usize)>) -> Seq<
    EventView,
> {
    Seq::new(
        events.len(),
        |i: int|
            if in_stream(kind, events[i]) {
                with_text(
                    events[i],
                    masked(text_of(events[i]), utf8_len(stream_text(events.take(i), kind)) as int, spans),
                )
            } else {
                events[i]
            },
    )
}

/// The text an event carries. Resize events carry none and are never part
/// of a stream.
pub fn event_text(data: &EventData) -> (t: &str)
    requires
        !(data@ is Resize),
    ensures
        t@ == text_of(data@),
{
    match data {
        EventData::Output(text) => text.as_str(),
        EventData::Other { data, .. } => data.as_str(),
        EventData::Resize { .. } => {
            assert(false);
            ""
        },
    }
}

/// Replaces the text an event carries.
pub fn set_event_text(data: &mut EventData, text: String)
    requires
        !(old(data)@ is Resize),
    ensures
        final(data)@ == with_text(old(data)@, text@),
{
    match data {
        EventData::Output(t) => {
            *t = text;
        },
        EventData::Other { data, .. } => {
            *data = text;
        },
        EventData::Resize { .. } => {},
    }
}

fn is_in_stream(data: &EventData, kind: StreamKind) -> (b: bool)
    ensures
        b == in_stream(kind, data@),
{
    match kind {
        StreamKind::Output => matches!(data, EventData::Output(_)),
        StreamKind::Input => match data {
            EventData::Other { code, .. } => {
                let v = to_chars(code.as_str());
                let r = v.len() == 1 && v[0] == 'i';
                proof {
                    if v@.len() == 1 && v@[0] == 'i' {
                        assert(v@ =~= seq!['i']);
                    }
                }
                r
            },
            _ => false,
        },
    }
}

proof fn lemma_utf8_len_push(s: Seq<char>, c: char)
    ensures
        utf8_len(s.push(c)) == utf8_len(s) + char_utf8_len(c),
{
    assert(s.push(c).drop_last() =~= s);
}

proof fn lemma_stream_step(events: Seq<EventView>, kind: StreamKind, i: int)
    requires
        0 <= i < events.len(),
    ensures
        stream_text(events.take(i + 1), kind) == stream_text(events.take(i), kind) + (if in_stream(
            kind,
            events[i],
        ) {
            text_of(events[i])
        } else {
            seq![]
        }),
{
    assert(events.take(i + 1).drop_last() =~= events.take(i));
    assert(events.take(i + 1).last() == events[i]);
}

/// A prefix's stream ends no later than the whole stream.
proof fn lemma_stream_prefix_len(events: Seq<EventView>, kind: StreamKind, i: int)
    requires
        0 <= i <= events.len(),
    ensures
        utf8_len(stream_text(events.take(i), kind)) <= utf8_len(stream_text(events, kind)),
    decreases events.len(),
{
    if i == events.len() {
        assert(events.take(i) =~= events);
    } else {
        lemma_stream_prefix_len(events.drop_last(), kind, i);
        assert(events.drop_last().take(i) =~= events.take(i));
        let piece = if in_stream(kind, events.last()) {
            text_of(events.last())
        } else {
            seq![]
        };
        lemma_utf8_len_append(stream_text(events.drop_last(), kind), piece);
    }
}

/// Each character's first byte, counted from the start of `t`, comes before
/// the end of `t`.
proof fn lemma_char_offset(t: Seq<char>, j: int)
    requires
        0 <= j < t.len(),
    ensures
        utf8_len(t.take(j)) + char_utf8_len(t[j]) == utf8_len(t.take(j + 1)),
        utf8_len(t.take(j + 1)) <= utf8_len(t),
{
    assert(t.take(j + 1) =~= t.take(j).push(t[j]));
    lemma_utf8_len_push(t.take(j), t[j]);
    lemma_utf8_len_append(t.take(j + 1), t.skip(j + 1));
    assert(t.take(j + 1) + t.skip(j + 1) =~= t);
}

/// `t` with each character whose first byte (at `base` and on) is set in
/// `mask` replaced by `*`.
fn mask_text(t: &str, base: usize, mask: &Vec<bool>, Ghost(spans): Ghost<Seq<(usize, usize)>>) -> (s: String)
    requires
        base + utf8_len(t@) <= mask@.len(),
        forall|b: int| 0 <= b < mask@.len() ==> mask@[b] == span_covers(spans, b),
    ensures
        s@ == masked(t@, base as int, spans),
{
    let chars = to_chars(t);
    let total = mask.len();
    let mut out = String::new();
    let mut off: usize = base;
    let mut j: usize = 0;
    while j < chars.len()
        invariant
            j <= chars@.len(),
            chars@ == t@,
            off == base + utf8_len(t@.take(j as int)),
            base + utf8_len(t@) <= mask@.len(),
            total == mask@.len(),
            forall|b: int| 0 <= b < mask@.len() ==> mask@[b] == span_covers(spans, b),
            out@ == masked(t@, base as int, spans).take(j as int),
        decreases chars@.len() - j,
    {
        let c = chars[j];
        proof {
            lemma_char_offset(t@, j as int);
        }
        if mask[off] {
            push_char(&mut out, '*');
        } else {
            push_char(&mut out, c);
        }
        assert(out@ =~= masked(t@, base as int, spans).take(j + 1));
        off = off + char_utf8_width(c);
        j += 1;
    }
    assert(masked(t@, base as int, spans).take(j as int) =~= masked(t@, base as int, spans));
    out
}

/// Redacts the matches of `patterns` in the `kind` stream of `events`:
/// every character of a stream event whose first byte lies in some match
/// becomes `*`. Returns the number of matches, all patterns together
/// (overlapping matches of two patterns count twice but mask once).
pub fn redact_stream(events: &mut Vec<EventData>, patterns: &Vec<Pattern>, kind: StreamKind) -> (count: usize)
    ensures
        count == pattern_spans(sources(patterns@), stream_text(views(old(events)@), kind)).len(),
        views(final(events)@) == redacted(
            views(old(events)@),
            kind,
            pattern_spans(sources(patterns@), stream_text(views(old(events)@), kind)),
        ),
{
    let ghost evs = views(events@);
    // The stream, and one (still clear) mask entry per stream byte.
    let mut stream = String::new();
    let mut mask: Vec<bool> = Vec::new();
    let mut i: usize = 0;
    while i < events.len()
        invariant
            i <= events@.len(),
            evs == views(events@),
            stream@ == stream_text(evs.take(i as int), kind),
            mask@.len() == utf8_len(stream@),
            forall|b: int| 0 <= b < mask@.len() ==> !mask@[b],
        decreases events@.len() - i,
    {
        proof {
            lemma_stream_step(evs, kind, i as int);
        }
        if is_in_stream(&events[i], kind) {
            let chars = to_chars(event_text(&events[i]));
            let ghost before = stream@;
            let mut j: usize = 0;
            while j < chars.len()
                invariant
                    j <= chars@.len(),
                    stream@ == before + chars@.take(j as int),
                    mask@.len() == utf8_len(stream@),
                    forall|b: int| 0 <= b < mask@.len() ==> !mask@[b],
                decreases chars@.len() - j,
            {
                let c = chars[j];
                proof {
                    lemma_utf8_len_push(stream@, c);
                }
                push_char(&mut stream, c);
                let w = char_utf8_width(c);
                let mut k: usize = 0;
                while k < w
                    invariant
                        k <= w,
                        mask@.len() + w - k == utf8_len(stream@),
                        forall|b: int| 0 <= b < mask@.len() ==> !mask@[b],
                    decreases w - k,
                {
                    mask.push(false);
                    k += 1;
                }
                j += 1;
                assert(stream@ =~= before + chars@.take(j as int));
            }
            assert(chars@.take(j as int) =~= chars@);
        } else {
            assert(stream@ + Seq::<char>::empty() =~= stream@);
        }
        i += 1;
    }
    assert(evs.take(i as int) =~= evs);
    let ghost srcs = sources(patterns@);

    // Every match of every pattern.
    let mut spans: Vec<(usize, usize)> = Vec::new();
    let mut k: usize = 0;
    while k < patterns.len()
        invariant
            k <= patterns@.len(),
            srcs == sources(patterns@),
            spans@ == pattern_spans(srcs.take(k as int), stream@),
            mask@.len() == utf8_len(stream@),
            forall|q: int| 0 <= q < spans@.len() ==> spans@[q].0 <= spans@[q].1 && spans@[q].1 <= mask@.len(),
        decreases patterns@.len() - k,
    {
        let found = find_spans(&patterns[k], stream.as_str());
        let ghost before = spans@;
        let mut q: usize = 0;
        while q < found.len()
            invariant
                q <= found@.len(),
                spans@ == before + found@.take(q as int),
                forall|r: int| 0 <= r < found@.len() ==> found@[r].0 <= found@[r].1 && found@[r].1 <= mask@.len(),
                forall|r: int| 0 <= r < spans@.len() ==> spans@[r].0 <= spans@[r].1 && spans@[r].1 <= mask@.len(),
            decreases found@.len() - q,
        {
            spans.push(found[q]);
            q += 1;
            assert(spans@ =~= before + found@.take(q as int));
        }
        assert(found@.take(q as int) =~= found@);
        assert(srcs.take(k + 1).drop_last() =~= srcs.take(k as int));
        assert(srcs.take(k + 1).last() == patterns@[k as int].source_view());
        k += 1;
    }
    assert(srcs.take(k as int) =~= srcs);
    let ghost all = spans@;
    let count = spans.len();
    if count == 0 {
        assert(views(events@) =~= redacted(evs, kind, all)) by {
            assert forall|i: int| 0 <= i < evs.len() && in_stream(kind, evs[i]) implies with_text(
                evs[i],
                masked(text_of(evs[i]), utf8_len(stream_text(evs.take(i), kind)) as int, all),
            ) == evs[i] by {
                let t = text_of(evs[i]);
                assert(masked(t, utf8_len(stream_text(evs.take(i), kind)) as int, all) =~= t);
            }
        }
        return 0;
    }

    // Mark the bytes the matches cover.
    let total = mask.len();
    let mut s: usize = 0;
    while s < spans.len()
        invariant
            s <= spans@.len(),
            mask@.len() == total,
            total == utf8_len(stream@),
            stream@ == stream_text(evs, kind),
            evs == views(events@),
            spans@ == all,
            forall|q: int| 0 <= q < all.len() ==> all[q].0 <= all[q].1 && all[q].1 <= mask@.len(),
            forall|b: int| 0 <= b < mask@.len() ==> mask@[b] == span_covers(all.take(s as int), b),
        decreases spans@.len() - s,
    {
        let (from, to) = spans[s];
        let ghost done = all.take(s as int);
        let mut b: usize = from;
        while b < to
            invariant
                from <= b <= to,
                to <= mask@.len(),
                mask@.len() == total,
                forall|x: int|
                    0 <= x < mask@.len() ==> mask@[x] == (span_covers(done, x) || (from <= x && x < b)),
            decreases to - b,
        {
            mask.set(b, true);
            b += 1;
        }
        proof {
            let next = all.take(s + 1);
            assert(next[s as int] == (from, to));
            assert forall|x: int| 0 <= x < mask@.len() implies mask@[x] == span_covers(next, x) by {
                if span_covers(done, x) {
                    let q = choose|q: int| 0 <= q < done.len() && done[q].0 <= x && x < done[q].1;
                    assert(next[q] == done[q]);
                }
                if span_covers(next, x) && !(from <= x && x < to) {
                    let q = choose|q: int| 0 <= q < next.len() && next[q].0 <= x && x < next[q].1;
                    assert(q != s);
                    assert(done[q] == next[q]);
                }
            }
        }
        s += 1;
    }
    assert(all.take(s as int) =~= all);

    // Rewrite each stream event's text.
    let ghost whole = stream_text(evs, kind);
    let mut off: usize = 0;
    let mut i: usize = 0;
    while i < events.len()
        invariant
            i <= events@.len(),
            events@.len() == evs.len(),
            whole == stream_text(evs, kind),
            mask@.len() == utf8_len(whole),
            mask@.len() == total,
            forall|b: int| 0 <= b < mask@.len() ==> mask@[b] == span_covers(all, b),
            off == utf8_len(stream_text(evs.take(i as int), kind)),
            forall|x: int| i <= x < evs.len() ==> views(events@)[x] == evs[x],
            forall|x: int| 0 <= x < i ==> views(events@)[x] == redacted(evs, kind, all)[x],
        decreases events@.len() - i,
    {
        proof {
            lemma_stream_step(evs, kind, i as int);
            lemma_stream_prefix_len(evs, kind, i + 1);
            assert(views(events@)[i as int] == events@[i as int]@);
        }
        if is_in_stream(&events[i], kind) {
            let t = event_text(&events[i]);
            proof {
                lemma_utf8_len_append(stream_text(evs.take(i as int), kind), t@);
            }
            let n = utf8_len_of(t);
            let new_text = mask_text(t, off, &mask, Ghost(all));
            set_event_text(&mut events[i], new_text);
            off = off + n;
        } else {
            assert(stream_text(evs.take(i as int), kind) + Seq::<char>::empty() =~= stream_text(
                evs.take(i as int),
                kind,
            ));
        }
        i += 1;
    }
    assert(views(events@) =~= redacted(evs, kind, all));
    count
}

/// The UTF-8 length of `t`.
fn utf8_len_of(t: &str) -> (n: usize)
    requires
        utf8_len(t@) <= usize::MAX,
    ensures
        n == utf8_len(t@),
{
    let chars = to_chars(t);
    let mut n: usize = 0;
    let mut j: usize = 0;
    while j < chars.len()
        invariant
            j <= chars@.len(),
            chars@ == t@,
            n == utf8_len(t@.take(j as int)),
            utf8_len(t@) <= usize::MAX,
        decreases chars@.len() - j,
    {
        proof {
            lemma_char_offset(t@, j as int);
        }
        n = n + char_utf8_width(chars[j]);
        j += 1;
    }
    assert(t@.take(j as int) =~= t@);
    n
}

/// The first pattern that does not compile, if any.
pub open spec fn first_invalid(patterns: Seq<Seq<char>>) -> Option<int> {
    if exists|k: int| 0 <= k < patterns.len() && !regex_compiles(patterns[k]) {
        Some(
            choose|k: int|
                0 <= k < patterns.len() && !regex_compiles(patterns[k]) && forall|j: int|
                    0 <= j < k ==> regex_compiles(patterns[j]),
        )
    } else {
        None
    }
}

/// Compiles every `--redact` pattern, refusing the first that does not
/// compile.
pub fn compile_patterns(patterns: &Vec<String>) -> (r: Result<Vec<Pattern>, EditError>)
    ensures
        r is Ok <==> first_invalid(patterns@.map_values(|p: String| p@)) is None,
        r matches Ok(v) ==> sources(v@) == patterns@.map_values(|p: String| p@),
        r matches Err(EditError::InvalidPattern { pattern, reason }) ==> (first_invalid(
            patterns@.map_values(|p: String| p@),
        ) matches Some(k) && pattern@ == patterns@[k]@ && reason@ == regex_error_reason(pattern@)),
{
    let ghost texts = patterns@.map_values(|p: String| p@);
    let mut out: Vec<Pattern> = Vec::new();
    let mut k: usize = 0;
    while k < patterns.len()
        invariant
            k <= patterns@.len(),
            texts == patterns@.map_values(|p: String| p@),
            forall|j: int| 0 <= j < k ==> regex_compiles(texts[j]),
            sources(out@) == texts.take(k as int),
        decreases patterns@.len() - k,
    {
        match compile_regex(patterns[k].as_str()) {
            Ok(p) => {
                assert(texts[k as int] == patterns@[k as int]@);
                assert(p.source_view() == texts[k as int]);
                let ghost before = out@;
                assert(sources(before).len() == before.len());
                assert(texts.take(k as int).len() == k);
                assert(before.len() == k);
                out.push(p);
                assert(out@ == before.push(p));
                assert(sources(out@).len() == k + 1);
                assert forall|j: int| 0 <= j <= k implies sources(out@)[j] == texts[j] by {
                    if j < k {
                        assert(sources(before)[j] == texts.take(k as int)[j]);
                        assert(out@[j] == before[j]);
                    }
                }
                assert(sources(out@) =~= texts.take(k + 1));
            },
            Err(reason) => {
                proof {
                    assert(!regex_compiles(texts[k as int]));
                    let f = first_invalid(texts);
                    assert(f matches Some(m) && m == k) by {
                        let m = choose|m: int|
                            0 <= m < texts.len() && !regex_compiles(texts[m]) && forall|j: int|
                                0 <= j < m ==> regex_compiles(texts[j]);
                        assert(!(m < k));
                        assert(!(k < m));
                    }
                }
                return Err(EditError::InvalidPattern { pattern: patterns[k].clone(), reason });
            },
        }
        k += 1;
    }
    assert(texts.take(k as int) =~= texts);
    Ok(out)
}

/// Redacts every match of `patterns` in the output stream, then in the
/// input stream. Refuses the first pattern that does not compile, leaving
/// the events untouched. Returns the number of matches in each stream.
pub fn redact(events: &mut Vec<EventData>, patterns: &Vec<String>) -> (r: Result<(usize, usize), EditError>)
    ensures
        r is Err <==> first_invalid(patterns@.map_values(|p: String| p@)) is Some,
        r is Err ==> final(events)@ == old(events)@,
        r matches Err(EditError::InvalidPattern { pattern, reason }) ==> (first_invalid(
            patterns@.map_values(|p: String| p@),
        ) matches Some(k) && pattern@ == patterns@[k]@ && reason@ == regex_error_reason(pattern@)),
        r matches Ok((o, i)) ==> ({
            let texts = patterns@.map_values(|p: String| p@);
            let out_spans = pattern_spans(texts, stream_text(views(old(events)@), StreamKind::Output));
            let mid = redacted(views(old(events)@), StreamKind::Output, out_spans);
            let in_spans = pattern_spans(texts, stream_text(mid, StreamKind::Input));
            &&& o == out_spans.len()
            &&& i == in_spans.len()
            &&& views(final(events)@) == redacted(mid, StreamKind::Input, in_spans)
        }),
{
    let compiled = match compile_patterns(patterns) {
        Ok(c) => c,
        Err(e) => return Err(e),
    };
    let output = redact_stream(events, &compiled, StreamKind::Output);
    let input = redact_stream(events, &compiled, StreamKind::Input);
    Ok((output, input))
}

/// Redaction keeps the layout: the same events, each of the same kind
/// with a text of the same length, and text outside the stream untouched.
pub proof fn redaction_keeps_layout(events: Seq<EventView>, kind: StreamKind, spans: Seq<(usize, usize)>)
    ensures
        redacted(events, kind, spans).len() == events.len(),
        forall|i: int|
            0 <= i < events.len() ==> {
                let before = events[i];
                let after = #[trigger] redacted(events, kind, spans)[i];
                &&& text_of(after).len() == text_of(before).len()
                &&& (before is Output <==> after is Output)
                &&& (before is Resize ==> after == before)
                &&& (before matches EventView::Other { code, .. } ==> after matches EventView::Other {
                    code: c2,
                    ..
                } && c2 == code)
                &&& (!in_stream(kind, before) ==> after == before)
            },
        forall|i: int, j: int|
            0 <= i < events.len() && 0 <= j < text_of(events[i]).len() ==> {
                let after = text_of(redacted(events, kind, spans)[i]);
                after[j] == '*' || after[j] == #[trigger] text_of(events[i])[j]
            },
{
}

} // verus!
