//! Source embedding: the SVG carries its own source.
//!
//! Every rendered SVG gets a `<metadata>` block holding the original input
//! (the .cast file bytes, or the captured ANSI stream) plus the effective
//! render options as JSON, the input deflate-compressed and base64-encoded.
//! That makes the SVG re-renderable and the recording recoverable with no
//! .cast file to keep track of. The payload is deterministic: raw deflate
//! and base64 of the same bytes always give the same text.
use vstd::prelude::*;

use crate::text::{
    find_chars, find_from, lemma_find_first, lemma_find_never, lemma_find_some, occurs_at, push_char, push_str,
    string_from_chars, to_chars,
};

verus! {

/// What kind of input an SVG embeds.
#[derive(Debug, Clone, Copy, PartialEq, Eq, Structural)]
pub enum SourceKind {
    /// An asciicast recording: the data is the .cast file, byte-exact.
    Cast,
    /// A raw ANSI byte stream (PTY capture, pipe, or .ansi dump).
    Ansi,
}

pub open spec fn kind_name(kind: SourceKind) -> Seq<char> {
    match kind {
        SourceKind::Cast => "cast"@,
        SourceKind::Ansi => "ansi"@,
    }
}

impl SourceKind {
    /// The value of the block's `kind` attribute.
    pub fn as_str(self) -> (s: &'static str)
        ensures
            s@ == kind_name(self),
    {
        match self {
            SourceKind::Cast => "cast",
            SourceKind::Ansi => "ansi",
        }
    }

    /// The natural file extension for an extracted source.
    pub fn extension(self) -> (s: &'static str)
        ensures
            s@ == kind_name(self),
    {
        match self {
            SourceKind::Cast => "cast",
            SourceKind::Ansi => "ansi",
        }
    }
}

/// An input together with the options it was rendered with (a JSON
/// document).
#[derive(Debug)]
pub struct EmbeddedSource {
    pub kind: SourceKind,
    pub data: Vec<u8>,
    pub options: String,
}

/// The pieces a source block holds, before the payload is decoded.
#[derive(Debug)]
pub struct SourceParts {
    pub kind: SourceKind,
    /// The options document, unescaped.
    pub options: String,
    /// The payload text, when the block has a data element.
    pub data: Option<String>,
}

/// Why an embedded source block was refused.
#[derive(Debug)]
pub enum EmbedError {
    /// The block has no closing `</metadata>`.
    Unterminated,
    /// The `kind` attribute names neither `cast` nor `ansi`.
    UnknownKind(String),
    /// The block has no `kind` attribute.
    NoKind,
    /// The block has no options element.
    NoOptions,
    /// The options document (here, unescaped) is refused by the caller's
    /// check.
    BadOptions(String),
    /// The block has no data element.
    NoData,
    /// The payload is not valid base64.
    BadBase64,
    /// The payload does not inflate.
    BadDeflate,
}

pub ghost enum EmbedErrorView {
    Unterminated,
    UnknownKind(Seq<char>),
    NoKind,
    NoOptions,
    BadOptions(Seq<char>),
    NoData,
    BadBase64,
    BadDeflate,
}

impl View for EmbedError {
    type V = EmbedErrorView;

    open spec fn view(&self) -> EmbedErrorView {
        match self {
            EmbedError::Unterminated => EmbedErrorView::Unterminated,
            EmbedError::UnknownKind(k) => EmbedErrorView::UnknownKind(k@),
            EmbedError::NoKind => EmbedErrorView::NoKind,
            EmbedError::NoOptions => EmbedErrorView::NoOptions,
            EmbedError::BadOptions(o) => EmbedErrorView::BadOptions(o@),
            EmbedError::NoData => EmbedErrorView::NoData,
            EmbedError::BadBase64 => EmbedErrorView::BadBase64,
            EmbedError::BadDeflate => EmbedErrorView::BadDeflate,
        }
    }
}

/// Raw deflate (no header) of `data` at the best compression level, as
/// flate2's `DeflateEncoder` writes it.
pub uninterp spec fn deflate_best(data: Seq<u8>) -> Seq<u8>;

/// What flate2's `DeflateDecoder` reads out of `data`; `None` when the
/// stream is corrupt.
pub uninterp spec fn inflate_raw(data: Seq<u8>) -> Option<Seq<u8>>;

/// The standard (padded) base64 text of `data`.
pub uninterp spec fn base64_encode(data: Seq<u8>) -> Seq<char>;

/// The bytes the standard (padded) base64 engine decodes `text` to; `None`
/// when it is not valid base64.
pub uninterp spec fn base64_decode(text: Seq<char>) -> Option<Seq<u8>>;

/// A character of the standard base64 alphabet, padding included.
pub open spec fn is_base64_char(c: char) -> bool {
    ('A' <= c && c <= 'Z') || ('a' <= c && c <= 'z') || ('0' <= c && c <= '9') || c == '+' || c
        == '/' || c == '='
}

/// Compresses `data` with flate2's `DeflateEncoder` at `Compression::best()`.
/// Claimed: the result is `deflate_best(data)`, and flate2's decoder reads
/// `data` back out of it.
#[verifier::external_body]
fn deflate(data: &[u8]) -> (out: Vec<u8>)
    ensures
        out@ == deflate_best(data@),
        inflate_raw(out@) == Some(data@),
{
    let mut encoder = flate2::write::DeflateEncoder::new(Vec::new(), flate2::Compression::best());
    std::io::Write::write_all(&mut encoder, data).expect("deflate to a vector");
    encoder.finish().expect("deflate to a vector")
}

/// Decompresses raw deflate data with flate2's `DeflateDecoder`, reading to
/// the end. Claimed: the result is `inflate_raw(data)`.
#[verifier::external_body]
fn inflate(data: &[u8]) -> (out: Option<Vec<u8>>)
    ensures
        match out {
            Some(v) => inflate_raw(data@) == Some(v@),
            None => inflate_raw(data@) is None,
        },
{
    let mut out = Vec::new();
    let mut decoder = flate2::read::DeflateDecoder::new(data);
    match std::io::Read::read_to_end(&mut decoder, &mut out) {
        Ok(_) => Some(out),
        Err(_) => None,
    }
}

/// Encodes with base64's `STANDARD` engine. Claimed: the result is
/// `base64_encode(data)`, it uses only the standard alphabet and padding,
/// and the same engine decodes it back to `data`.
#[verifier::external_body]
pub(crate) fn encode_base64(data: &[u8]) -> (text: String)
    ensures
        text@ == base64_encode(data@),
        base64_decode(text@) == Some(data@),
        forall|i: int| 0 <= i < text@.len() ==> is_base64_char(#[trigger] text@[i]),
{
    base64::Engine::encode(&base64::engine::general_purpose::STANDARD, data)
}

/// Decodes with base64's `STANDARD` engine. Claimed: the result is
/// `base64_decode(text)`.
#[verifier::external_body]
fn decode_base64(text: &str) -> (data: Option<Vec<u8>>)
    ensures
        match data {
            Some(v) => base64_decode(text@) == Some(v@),
            None => base64_decode(text@) is None,
        },
{
    base64::Engine::decode(&base64::engine::general_purpose::STANDARD, text).ok()
}

// ---------------------------------------------------------------------------
// XML text escaping for the options document.

/// The escape of one character of the options document: only `&` and `<`
/// need encoding in an XML text node.
pub open spec fn escape_char(c: char) -> Seq<char> {
    if c == '&' {
        seq!['&', 'a', 'm', 'p', ';']
    } else if c == '<' {
        seq!['&', 'l', 't', ';']
    } else {
        seq![c]
    }
}

pub open spec fn xml_text_escape_spec(s: Seq<char>) -> Seq<char>
    decreases s.len(),
{
    if s.len() == 0 {
        seq![]
    } else {
        escape_char(s[0]) + xml_text_escape_spec(s.drop_first())
    }
}

/// `s` with every non-overlapping occurrence of `pat`, left to right,
/// replaced by `rep` (as `str::replace`).
pub open spec fn replace_all(s: Seq<char>, pat: Seq<char>, rep: Seq<char>) -> Seq<char>
    decreases s.len(),
{
    if s.len() == 0 {
        seq![]
    } else if pat.len() > 0 && pat.len() <= s.len() && s.take(pat.len() as int) == pat {
        rep + replace_all(s.skip(pat.len() as int), pat, rep)
    } else {
        seq![s[0]] + replace_all(s.drop_first(), pat, rep)
    }
}

pub open spec fn xml_text_unescape_spec(s: Seq<char>) -> Seq<char> {
    replace_all(
        replace_all(s, seq!['&', 'l', 't', ';'], seq!['<']),
        seq!['&', 'a', 'm', 'p', ';'],
        seq!['&'],
    )
}

proof fn lemma_escape_append(a: Seq<char>, b: Seq<char>)
    ensures
        xml_text_escape_spec(a + b) == xml_text_escape_spec(a) + xml_text_escape_spec(b),
    decreases a.len(),
{
    if a.len() == 0 {
        assert(a + b =~= b);
    } else {
        lemma_escape_append(a.drop_first(), b);
        assert((a + b).drop_first() =~= a.drop_first() + b);
        assert((a + b)[0] == a[0]);
    }
}

/// Escapes a JSON document for use as an XML text node: `&` and `<` are
/// encoded, `>` is left alone for readability.
pub fn xml_text_escape(text: &str) -> (out: String)
    ensures
        out@ == xml_text_escape_spec(text@),
{
    let chars = to_chars(text);
    let mut out = String::new();
    let mut i: usize = 0;
    while i < chars.len()
        invariant
            i <= chars@.len(),
            chars@ == text@,
            out@ == xml_text_escape_spec(chars@.take(i as int)),
        decreases chars@.len() - i,
    {
        let c = chars[i];
        proof {
            lemma_escape_append(chars@.take(i as int), seq![c]);
            assert(chars@.take(i + 1) =~= chars@.take(i as int) + seq![c]);
            assert(seq![c].drop_first() =~= Seq::<char>::empty());
            assert(seq![c][0] == c);
            assert(xml_text_escape_spec(Seq::<char>::empty()) =~= Seq::<char>::empty());
            assert(xml_text_escape_spec(seq![c]) =~= escape_char(c) + Seq::<char>::empty());
            assert(escape_char(c) + Seq::<char>::empty() =~= escape_char(c));
        }
        if c == '&' {
            push_str(&mut out, "&amp;");
            proof {
                reveal_strlit("&amp;");
            }
        } else if c == '<' {
            push_str(&mut out, "&lt;");
            proof {
                reveal_strlit("&lt;");
            }
        } else {
            push_char(&mut out, c);
        }
        i += 1;
        assert(out@ =~= xml_text_escape_spec(chars@.take(i as int)));
    }
    assert(chars@.take(i as int) =~= chars@);
    out
}

fn starts_here(s: &Vec<char>, pat: &[char], i: usize) -> (b: bool)
    requires
        i <= s@.len(),
    ensures
        b == (pat@.len() <= s@.len() - i && s@.skip(i as int).take(pat@.len() as int) == pat@),
{
    if pat.len() > s.len() - i {
        return false;
    }
    let n = s.len();
    let mut j: usize = 0;
    while j < pat.len()
        invariant
            j <= pat@.len(),
            n == s@.len(),
            i + pat@.len() <= s@.len(),
            forall|k: int| 0 <= k < j ==> s@[i + k] == pat@[k],
        decreases pat@.len() - j,
    {
        if s[i + j] != pat[j] {
            assert(s@.skip(i as int).take(pat@.len() as int)[j as int] != pat@[j as int]);
            return false;
        }
        j += 1;
    }
    assert(s@.skip(i as int).take(pat@.len() as int) =~= pat@);
    true
}

/// `s` with every occurrence of `pat` replaced by `rep`, left to right.
fn replace_chars(s: &Vec<char>, pat: &[char], rep: &[char]) -> (out: Vec<char>)
    requires
        pat@.len() > 0,
    ensures
        out@ == replace_all(s@, pat@, rep@),
{
    let mut out: Vec<char> = Vec::new();
    let mut i: usize = 0;
    assert(s@.skip(0) =~= s@);
    assert(out@ + replace_all(s@, pat@, rep@) =~= replace_all(s@, pat@, rep@));
    while i < s.len()
        invariant
            i <= s@.len(),
            pat@.len() > 0,
            out@ + replace_all(s@.skip(i as int), pat@, rep@) == replace_all(s@, pat@, rep@),
        decreases s@.len() - i,
    {
        let ghost rest = s@.skip(i as int);
        if starts_here(s, pat, i) {
            assert(rest.skip(pat@.len() as int) =~= s@.skip(i + pat@.len()));
            let ghost before = out@;
            let mut k: usize = 0;
            while k < rep.len()
                invariant
                    k <= rep@.len(),
                    out@ == before + rep@.take(k as int),
                decreases rep@.len() - k,
            {
                out.push(rep[k]);
                k += 1;
                assert(out@ =~= before + rep@.take(k as int));
            }
            assert(rep@.take(k as int) =~= rep@);
            assert(out@ + replace_all(s@.skip(i + pat@.len()), pat@, rep@) =~= before + (rep@
                + replace_all(rest.skip(pat@.len() as int), pat@, rep@)));
            i = i + pat.len();
        } else {
            assert(rest[0] == s@[i as int]);
            assert(rest.drop_first() =~= s@.skip(i + 1));
            let ghost before = out@;
            out.push(s[i]);
            assert(out@ + replace_all(s@.skip(i + 1), pat@, rep@) =~= before + (seq![rest[0]]
                + replace_all(rest.drop_first(), pat@, rep@)));
            i += 1;
        }
    }
    assert(s@.skip(i as int) =~= Seq::<char>::empty());
    assert(out@ + Seq::<char>::empty() =~= out@);
    out
}

/// Undoes [`xml_text_escape`]. `&lt;` cannot occur inside an escaped
/// `&amp;…` run, so replacing `&lt;` first and `&amp;` second is safe.
pub fn xml_text_unescape(text: &str) -> (out: String)
    ensures
        out@ == xml_text_unescape_spec(text@),
{
    let chars = to_chars(text);
    let lt = ['&', 'l', 't', ';'];
    let lt_char = ['<'];
    let amp = ['&', 'a', 'm', 'p', ';'];
    let amp_char = ['&'];
    assert(lt@ =~= seq!['&', 'l', 't', ';']);
    assert(lt_char@ =~= seq!['<']);
    assert(amp@ =~= seq!['&', 'a', 'm', 'p', ';']);
    assert(amp_char@ =~= seq!['&']);
    let once = replace_chars(&chars, &lt, &lt_char);
    let twice = replace_chars(&once, &amp, &amp_char);
    string_from_chars(twice.as_slice())
}

/// If no character of `t` starts `pat`, replacing passes `t` through.
proof fn lemma_replace_passes(t: Seq<char>, rest: Seq<char>, pat: Seq<char>, rep: Seq<char>)
    requires
        pat.len() > 0,
        forall|i: int| 0 <= i < t.len() ==> t[i] != pat[0],
    ensures
        replace_all(t + rest, pat, rep) == t + replace_all(rest, pat, rep),
    decreases t.len(),
{
    if t.len() > 0 {
        let s = t + rest;
        assert(s[0] == t[0]);
        if pat.len() <= s.len() {
            assert(s.take(pat.len() as int)[0] == s[0]);
        }
        lemma_replace_passes(t.drop_first(), rest, pat, rep);
        assert(s.drop_first() =~= t.drop_first() + rest);
        assert(seq![t[0]] + (t.drop_first() + replace_all(rest, pat, rep)) =~= t + replace_all(
            rest,
            pat,
            rep,
        ));
    } else {
        assert(t + rest =~= rest);
    }
}

/// The options text after the first replacement: `&` still escaped.
pub open spec fn amp_escaped(s: Seq<char>) -> Seq<char>
    decreases s.len(),
{
    if s.len() == 0 {
        seq![]
    } else {
        (if s[0] == '&' {
            seq!['&', 'a', 'm', 'p', ';']
        } else {
            seq![s[0]]
        }) + amp_escaped(s.drop_first())
    }
}

proof fn lemma_unescape_lt(s: Seq<char>)
    ensures
        replace_all(xml_text_escape_spec(s), seq!['&', 'l', 't', ';'], seq!['<']) == amp_escaped(s),
    decreases s.len(),
{
    let pat = seq!['&', 'l', 't', ';'];
    let rep = seq!['<'];
    if s.len() > 0 {
        lemma_unescape_lt(s.drop_first());
        let e = xml_text_escape_spec(s.drop_first());
        let whole = escape_char(s[0]) + e;
        if s[0] == '&' {
            let tail = seq!['a', 'm', 'p', ';'];
            assert(whole[1] == 'a');
            assert(whole.take(4)[1] != pat[1]);
            assert(whole.drop_first() =~= tail + e);
            lemma_replace_passes(tail, e, pat, rep);
            assert(seq!['&'] + (tail + replace_all(e, pat, rep)) =~= seq!['&', 'a', 'm', 'p', ';']
                + amp_escaped(s.drop_first()));
        } else if s[0] == '<' {
            assert(whole.take(4) =~= pat);
            assert(whole.skip(4) =~= e);
        } else {
            assert(whole[0] == s[0]);
            if whole.len() >= 4 {
                assert(whole.take(4)[0] != pat[0]);
            }
            assert(whole.drop_first() =~= e);
        }
    }
}

proof fn lemma_unescape_amp(s: Seq<char>)
    ensures
        replace_all(amp_escaped(s), seq!['&', 'a', 'm', 'p', ';'], seq!['&']) == s,
    decreases s.len(),
{
    let pat = seq!['&', 'a', 'm', 'p', ';'];
    if s.len() > 0 {
        lemma_unescape_amp(s.drop_first());
        let e = amp_escaped(s.drop_first());
        let piece = if s[0] == '&' {
            seq!['&', 'a', 'm', 'p', ';']
        } else {
            seq![s[0]]
        };
        let whole = piece + e;
        if s[0] == '&' {
            assert(whole.take(5) =~= pat);
            assert(whole.skip(5) =~= e);
        } else {
            assert(whole[0] == s[0]);
            if whole.len() >= 5 {
                assert(whole.take(5)[0] != pat[0]);
            }
            assert(whole.drop_first() =~= e);
        }
        assert(seq![s[0]] + s.drop_first() =~= s);
    }
}

/// Unescaping an escaped document gives the document back.
pub proof fn unescape_inverts_escape(s: Seq<char>)
    ensures
        xml_text_unescape_spec(xml_text_escape_spec(s)) == s,
{
    lemma_unescape_lt(s);
    lemma_unescape_amp(s);
}

proof fn lemma_escape_has_no_lt(s: Seq<char>)
    ensures
        forall|i: int|
            0 <= i < xml_text_escape_spec(s).len() ==> #[trigger] xml_text_escape_spec(s)[i] != '<',
    decreases s.len(),
{
    if s.len() > 0 {
        lemma_escape_has_no_lt(s.drop_first());
        let e = xml_text_escape_spec(s.drop_first());
        assert forall|i: int| 0 <= i < xml_text_escape_spec(s).len() implies #[trigger] xml_text_escape_spec(
            s,
        )[i] != '<' by {
            if i >= escape_char(s[0]).len() {
                assert(xml_text_escape_spec(s)[i] == e[i - escape_char(s[0]).len()]);
            }
        }
    }
}

// ---------------------------------------------------------------------------
// Locating elements and attributes.

/// The text content of the first `<tag …>…</tag>` element in `block`.
pub open spec fn element_text_spec(block: Seq<char>, tag: Seq<char>) -> Option<Seq<char>> {
    match find_from(block, seq!['<'] + tag, 0) {
        None => None,
        Some(open) => match find_from(block, seq!['>'], open) {
            None => None,
            Some(gt) => match find_from(block, seq!['<', '/'] + tag + seq!['>'], gt + 1) {
                None => None,
                Some(end) => Some(block.subrange(gt + 1, end)),
            },
        },
    }
}

/// The value of the first `name="…"` attribute in `block`.
pub open spec fn attr_value_spec(block: Seq<char>, name: Seq<char>) -> Option<Seq<char>> {
    match find_from(block, name + seq!['=', '"'], 0) {
        None => None,
        Some(at) => {
            let rest = block.skip(at + name.len() + 2);
            match find_from(rest, seq!['"'], 0) {
                None => None,
                Some(q) => Some(rest.take(q)),
            }
        },
    }
}

fn chars_of(prefix: &[char], middle: &str, suffix: &[char]) -> (v: Vec<char>)
    ensures
        v@ == prefix@ + middle@ + suffix@,
{
    let mut v: Vec<char> = Vec::new();
    let m = to_chars(middle);
    let mut i: usize = 0;
    while i < prefix.len()
        invariant
            i <= prefix@.len(),
            v@ == prefix@.take(i as int),
        decreases prefix@.len() - i,
    {
        v.push(prefix[i]);
        i += 1;
        assert(v@ =~= prefix@.take(i as int));
    }
    let mut i: usize = 0;
    while i < m.len()
        invariant
            i <= m@.len(),
            v@ == prefix@ + m@.take(i as int),
        decreases m@.len() - i,
    {
        v.push(m[i]);
        i += 1;
        assert(v@ =~= prefix@ + m@.take(i as int));
    }
    let mut i: usize = 0;
    while i < suffix.len()
        invariant
            i <= suffix@.len(),
            v@ == prefix@ + m@ + suffix@.take(i as int),
        decreases suffix@.len() - i,
    {
        v.push(suffix[i]);
        i += 1;
        assert(v@ =~= prefix@ + m@ + suffix@.take(i as int));
    }
    assert(prefix@.take(prefix@.len() as int) =~= prefix@);
    assert(m@.take(m@.len() as int) =~= m@);
    assert(suffix@.take(suffix@.len() as int) =~= suffix@);
    v
}

fn sub_string(v: &Vec<char>, from: usize, to: usize) -> (s: String)
    requires
        from <= to <= v@.len(),
    ensures
        s@ == v@.subrange(from as int, to as int),
{
    let mut s = String::new();
    let mut i: usize = from;
    while i < to
        invariant
            from <= i <= to,
            to <= v@.len(),
            s@ == v@.subrange(from as int, i as int),
        decreases to - i,
    {
        push_char(&mut s, v[i]);
        i += 1;
        assert(s@ =~= v@.subrange(from as int, i as int));
    }
    s
}

/// The text content of the first `<tag …>…</tag>` element in `block`.
pub fn element_text(block: &str, tag: &str) -> (r: Option<String>)
    ensures
        match r {
            Some(t) => element_text_spec(block@, tag@) == Some(t@),
            None => element_text_spec(block@, tag@) is None,
        },
{
    let b = to_chars(block);
    let n = b.len();
    let mut lt: Vec<char> = Vec::new();
    lt.push('<');
    let mut lt_slash: Vec<char> = Vec::new();
    lt_slash.push('<');
    lt_slash.push('/');
    let mut gt_pat: Vec<char> = Vec::new();
    gt_pat.push('>');
    let none: Vec<char> = Vec::new();
    let open_pat = chars_of(lt.as_slice(), tag, none.as_slice());
    let close_pat = chars_of(lt_slash.as_slice(), tag, gt_pat.as_slice());
    proof {
        assert(lt@ =~= seq!['<']);
        assert(lt_slash@ =~= seq!['<', '/']);
        assert(gt_pat@ =~= seq!['>']);
        assert(open_pat@ =~= seq!['<'] + tag@);
        assert(close_pat@ =~= seq!['<', '/'] + tag@ + seq!['>']);
    }
    let open = match find_chars(&b, &open_pat, 0) {
        Some(i) => i,
        None => return None,
    };
    let gt = match find_chars(&b, &gt_pat, open) {
        Some(i) => i,
        None => return None,
    };
    proof {
        lemma_find_some(b@, gt_pat@, open as int, gt as int);
    }
    let end = match find_chars(&b, &close_pat, gt + 1) {
        Some(i) => i,
        None => return None,
    };
    proof {
        lemma_find_some(b@, close_pat@, gt + 1, end as int);
    }
    Some(sub_string(&b, gt + 1, end))
}

/// The value of the first `name="…"` attribute in `block`.
#[verifier::rlimit(40)]
pub fn attr_value(block: &str, name: &str) -> (r: Option<String>)
    ensures
        match r {
            Some(t) => attr_value_spec(block@, name@) == Some(t@),
            None => attr_value_spec(block@, name@) is None,
        },
{
    let b = to_chars(block);
    let n = b.len();
    let none: Vec<char> = Vec::new();
    let mut eq_quote: Vec<char> = Vec::new();
    eq_quote.push('=');
    eq_quote.push('"');
    assert(none@ =~= Seq::<char>::empty());
    assert(eq_quote@ =~= seq!['=', '"']);
    let pat = chars_of(none.as_slice(), name, eq_quote.as_slice());
    proof {
        assert(pat@ =~= name@ + seq!['=', '"']);
    }
    let at = match find_chars(&b, &pat, 0) {
        Some(i) => i,
        None => return None,
    };
    proof {
        lemma_find_some(b@, pat@, 0, at as int);
    }
    let start = at + pat.len();
    let mut quote: Vec<char> = Vec::new();
    quote.push('"');
    assert(quote@ =~= seq!['"']);
    let ghost rest = b@.skip(start as int);
    match find_chars(&b, &quote, start) {
        Some(q) => {
            proof {
                lemma_find_some(b@, quote@, start as int, q as int);
                assert(rest[q - start] == b@[q as int]);
                assert(b@[q + 0] == quote@[0]);
                assert(occurs_at(rest, quote@, q - start));
                assert forall|j: int| 0 <= j < q - start implies !occurs_at(rest, quote@, j) by {
                    assert(!occurs_at(b@, quote@, j + start));
                    if occurs_at(rest, quote@, j) {
                        assert(rest[j + 0] == b@[j + start]);
                    }
                }
                lemma_find_first(rest, quote@, 0, q - start);
                assert(rest.take(q - start) =~= b@.subrange(start as int, q as int));
            }
            Some(sub_string(&b, start, q))
        },
        None => {
            proof {
                assert forall|j: int| 0 <= j implies !occurs_at(rest, quote@, j) by {
                    lemma_find_never(b@, quote@, start as int, j + start);
                    if occurs_at(rest, quote@, j) {
                        assert(rest[j + 0] == b@[j + start]);
                    }
                }
                crate::text::lemma_find_none(rest, quote@, 0);
            }
            None
        },
    }
}

} // verus!

verus! {

// ---------------------------------------------------------------------------
// Whitespace trimming, as `str::trim`.

/// `char::is_whitespace`: the Unicode White_Space property.
pub open spec fn is_whitespace(c: char) -> bool {
    let u = c as u32;
    (0x9 <= u && u <= 0xD) || u == 0x20 || u == 0x85 || u == 0xA0 || u == 0x1680 || (0x2000 <= u
        && u <= 0x200A) || u == 0x2028 || u == 0x2029 || u == 0x202F || u == 0x205F || u == 0x3000
}

pub open spec fn trim_start_spec(s: Seq<char>) -> Seq<char>
    decreases s.len(),
{
    if s.len() > 0 && is_whitespace(s[0]) {
        trim_start_spec(s.drop_first())
    } else {
        s
    }
}

pub open spec fn trim_end_spec(s: Seq<char>) -> Seq<char>
    decreases s.len(),
{
    if s.len() > 0 && is_whitespace(s.last()) {
        trim_end_spec(s.drop_last())
    } else {
        s
    }
}

pub open spec fn trim_spec(s: Seq<char>) -> Seq<char> {
    trim_end_spec(trim_start_spec(s))
}

fn whitespace(c: char) -> (b: bool)
    ensures
        b == is_whitespace(c),
{
    let u = c as u32;
    (0x9 <= u && u <= 0xD) || u == 0x20 || u == 0x85 || u == 0xA0 || u == 0x1680 || (0x2000 <= u
        && u <= 0x200A) || u == 0x2028 || u == 0x2029 || u == 0x202F || u == 0x205F || u == 0x3000
}

/// `s` without leading and trailing whitespace.
pub fn trim(s: &str) -> (t: String)
    ensures
        t@ == trim_spec(s@),
{
    let v = to_chars(s);
    let n = v.len();
    let mut i: usize = 0;
    assert(v@.skip(0) =~= v@);
    while i < n && whitespace(v[i])
        invariant
            i <= n,
            n == v@.len(),
            v@ == s@,
            trim_start_spec(v@.skip(i as int)) == trim_start_spec(s@),
        decreases n - i,
    {
        assert(v@.skip(i as int).drop_first() =~= v@.skip(i + 1));
        i += 1;
    }
    let ghost mid = v@.skip(i as int);
    assert(trim_start_spec(mid) == mid);
    let mut j: usize = n;
    assert(v@.subrange(i as int, n as int) =~= mid);
    while j > i && whitespace(v[j - 1])
        invariant
            i <= j <= n,
            n == v@.len(),
            trim_end_spec(v@.subrange(i as int, j as int)) == trim_end_spec(mid),
        decreases j,
    {
        assert(v@.subrange(i as int, j as int).drop_last() =~= v@.subrange(i as int, j - 1));
        j -= 1;
    }
    sub_string(&v, i, j)
}

// ---------------------------------------------------------------------------
// The source block.

pub open spec fn meta_open() -> Seq<char> {
    "<metadata id=\"terminal-svg-source\">"@
}

pub open spec fn meta_close() -> Seq<char> {
    "</metadata>"@
}

pub open spec fn block_head() -> Seq<char> {
    "<metadata id=\"terminal-svg-source\"><tsvg:source xmlns:tsvg=\"https://terminal-svg.dev/ns/source/1\" version=\"1\" kind=\""@
}

pub open spec fn options_open() -> Seq<char> {
    "\"><tsvg:options>"@
}

pub open spec fn data_open() -> Seq<char> {
    "</tsvg:options><tsvg:data encoding=\"deflate+base64\">"@
}

pub open spec fn block_tail() -> Seq<char> {
    "</tsvg:data></tsvg:source></metadata>"@
}

/// The metadata block for a source whose escaped options are `options`
/// and whose encoded payload is `payload`.
pub open spec fn source_block(kind: SourceKind, options: Seq<char>, payload: Seq<char>) -> Seq<char> {
    block_head() + kind_name(kind) + options_open() + options + data_open() + payload + block_tail()
}

/// Right after the opening `<svg …>` tag; the very start when there is
/// none.
pub open spec fn insert_point(svg: Seq<char>) -> int {
    match find_from(svg, "<svg"@, 0) {
        Some(start) => match find_from(svg, seq!['>'], start) {
            Some(end) => end + 1,
            None => 0,
        },
        None => 0,
    }
}

/// The SVG with the source block inserted on its own line after the
/// opening tag.
pub open spec fn embed_spec(svg: Seq<char>, kind: SourceKind, options: Seq<char>, data: Seq<u8>) -> Seq<
    char,
> {
    let at = insert_point(svg);
    svg.take(at) + seq!['\n'] + source_block(
        kind,
        xml_text_escape_spec(options),
        base64_encode(deflate_best(data)),
    ) + svg.skip(at)
}

pub ghost enum PartsView {
    Absent,
    Found { kind: SourceKind, options: Seq<char>, data: Option<Seq<char>> },
    Failed(EmbedErrorView),
}

/// What a source block holds.
pub open spec fn parts_of_block(block: Seq<char>) -> PartsView {
    match attr_value_spec(block, "kind"@) {
        None => PartsView::Failed(EmbedErrorView::NoKind),
        Some(k) => if k == "cast"@ || k == "ansi"@ {
            match element_text_spec(block, "tsvg:options"@) {
                None => PartsView::Failed(EmbedErrorView::NoOptions),
                Some(o) => PartsView::Found {
                    kind: if k == "cast"@ {
                        SourceKind::Cast
                    } else {
                        SourceKind::Ansi
                    },
                    options: xml_text_unescape_spec(o),
                    data: element_text_spec(block, "tsvg:data"@),
                },
            }
        } else {
            PartsView::Failed(EmbedErrorView::UnknownKind(k))
        },
    }
}

/// The first source block of `svg`, up to its closing tag.
pub open spec fn extract_parts_spec(svg: Seq<char>) -> PartsView {
    match find_from(svg, meta_open(), 0) {
        None => PartsView::Absent,
        Some(start) => {
            let rest = svg.skip(start);
            match find_from(rest, meta_close(), 0) {
                None => PartsView::Failed(EmbedErrorView::Unterminated),
                Some(end) => parts_of_block(rest.take(end)),
            }
        },
    }
}

/// The bytes a payload text decodes to.
pub open spec fn decode_spec(data: Option<Seq<char>>) -> Result<Seq<u8>, EmbedErrorView> {
    match data {
        None => Err(EmbedErrorView::NoData),
        Some(t) => match base64_decode(trim_spec(t)) {
            None => Err(EmbedErrorView::BadBase64),
            Some(z) => match inflate_raw(z) {
                None => Err(EmbedErrorView::BadDeflate),
                Some(bytes) => Ok(bytes),
            },
        },
    }
}

pub ghost enum ExtractView {
    Absent,
    Found { kind: SourceKind, options: Seq<char>, data: Seq<u8> },
    Failed(EmbedErrorView),
}

/// The source an SVG embeds, when its options pass the check `ok`: the
/// options are checked before the payload is decoded.
pub open spec fn extract_checked_spec(svg: Seq<char>, ok: spec_fn(Seq<char>) -> bool) -> ExtractView {
    match extract_parts_spec(svg) {
        PartsView::Absent => ExtractView::Absent,
        PartsView::Failed(e) => ExtractView::Failed(e),
        PartsView::Found { kind, options, data } => if !ok(options) {
            ExtractView::Failed(EmbedErrorView::BadOptions(options))
        } else {
            match decode_spec(data) {
                Ok(bytes) => ExtractView::Found { kind, options, data: bytes },
                Err(e) => ExtractView::Failed(e),
            }
        },
    }
}

/// The source an SVG embeds, its options taken as they are.
pub open spec fn extract_spec(svg: Seq<char>) -> ExtractView {
    match extract_parts_spec(svg) {
        PartsView::Absent => ExtractView::Absent,
        PartsView::Failed(e) => ExtractView::Failed(e),
        PartsView::Found { kind, options, data } => match decode_spec(data) {
            Ok(bytes) => ExtractView::Found { kind, options, data: bytes },
            Err(e) => ExtractView::Failed(e),
        },
    }
}

pub open spec fn parts_view(r: Result<Option<SourceParts>, EmbedError>) -> PartsView {
    match r {
        Ok(None) => PartsView::Absent,
        Ok(Some(p)) => PartsView::Found {
            kind: p.kind,
            options: p.options@,
            data: match p.data {
                Some(d) => Some(d@),
                None => None,
            },
        },
        Err(e) => PartsView::Failed(e@),
    }
}

pub open spec fn extract_view(r: Result<Option<EmbeddedSource>, EmbedError>) -> ExtractView {
    match r {
        Ok(None) => ExtractView::Absent,
        Ok(Some(s)) => ExtractView::Found { kind: s.kind, options: s.options@, data: s.data@ },
        Err(e) => ExtractView::Failed(e@),
    }
}

#[verifier::rlimit(40)]
fn insertion_point(svg: &Vec<char>) -> (at: usize)
    ensures
        at == insert_point(svg@),
        at <= svg@.len(),
{
    let n = svg.len();
    let open = to_chars("<svg");
    let mut gt: Vec<char> = Vec::new();
    gt.push('>');
    assert(gt@ =~= seq!['>']);
    match find_chars(svg, &open, 0) {
        Some(start) => match find_chars(svg, &gt, start) {
            Some(end) => {
                proof {
                    lemma_find_some(svg@, gt@, start as int, end as int);
                }
                end + 1
            },
            None => 0,
        },
        None => 0,
    }
}

/// The characters of `v` from `from` on.
fn tail_chars(v: &Vec<char>, from: usize) -> (t: Vec<char>)
    requires
        from <= v@.len(),
    ensures
        t@ == v@.skip(from as int),
{
    let mut t: Vec<char> = Vec::new();
    let mut i: usize = from;
    while i < v.len()
        invariant
            from <= i <= v@.len(),
            t@ == v@.subrange(from as int, i as int),
        decreases v@.len() - i,
    {
        t.push(v[i]);
        i += 1;
        assert(t@ =~= v@.subrange(from as int, i as int));
    }
    assert(v@.subrange(from as int, i as int) =~= v@.skip(from as int));
    t
}

/// Locates the source block of a document and reads its kind and options;
/// `Ok(None)` means the document has no source block (a foreign SVG, or
/// one that went through an optimizer).
#[verifier::rlimit(60)]
pub fn extract_parts(svg: &str) -> (r: Result<Option<SourceParts>, EmbedError>)
    ensures
        parts_view(r) == extract_parts_spec(svg@),
{
    let v = to_chars(svg);
    let open = to_chars("<metadata id=\"terminal-svg-source\">");
    let start = match find_chars(&v, &open, 0) {
        Some(i) => i,
        None => return Ok(None),
    };
    proof {
        lemma_find_some(v@, open@, 0, start as int);
    }
    let rest = tail_chars(&v, start);
    let close = to_chars("</metadata>");
    let end = match find_chars(&rest, &close, 0) {
        Some(i) => i,
        None => return Err(EmbedError::Unterminated),
    };
    proof {
        lemma_find_some(rest@, close@, 0, end as int);
    }
    let block = sub_string(&rest, 0, end);
    assert(block@ =~= rest@.take(end as int));
    let kind = match attr_value(block.as_str(), "kind") {
        None => return Err(EmbedError::NoKind),
        Some(k) => {
            if crate::text::str_eq(k.as_str(), "cast") {
                SourceKind::Cast
            } else if crate::text::str_eq(k.as_str(), "ansi") {
                SourceKind::Ansi
            } else {
                return Err(EmbedError::UnknownKind(k));
            }
        },
    };
    let options = match element_text(block.as_str(), "tsvg:options") {
        None => return Err(EmbedError::NoOptions),
        Some(o) => xml_text_unescape(o.as_str()),
    };
    let data = element_text(block.as_str(), "tsvg:data");
    Ok(Some(SourceParts { kind, options, data }))
}

/// Decodes a block's payload text: trimmed, base64, then raw deflate.
pub fn decode_payload(data: Option<&str>) -> (r: Result<Vec<u8>, EmbedError>)
    ensures
        match r {
            Ok(bytes) => decode_spec(
                match data {
                    Some(d) => Some(d@),
                    None => None,
                },
            ) == Ok::<Seq<u8>, EmbedErrorView>(bytes@),
            Err(e) => decode_spec(
                match data {
                    Some(d) => Some(d@),
                    None => None,
                },
            ) == Err::<Seq<u8>, EmbedErrorView>(e@),
        },
{
    let text = match data {
        None => return Err(EmbedError::NoData),
        Some(t) => t,
    };
    let trimmed = trim(text);
    let deflated = match decode_base64(trimmed.as_str()) {
        None => return Err(EmbedError::BadBase64),
        Some(z) => z,
    };
    match inflate(deflated.as_slice()) {
        None => Err(EmbedError::BadDeflate),
        Some(bytes) => Ok(bytes),
    }
}

/// `f` can check any text and answers alike for texts that read alike.
pub open spec fn text_check<F: Fn(&str) -> bool>(f: F) -> bool {
    &&& forall|t: &str| #[trigger] f.requires((t,))
    &&& forall|t1: &str, t2: &str, a: bool, b: bool|
        t1@ == t2@ && #[trigger] f.ensures((t1,), a) && #[trigger] f.ensures((t2,), b) ==> a == b
}

/// The texts a check accepts.
pub open spec fn accepted<F: Fn(&str) -> bool>(f: F) -> spec_fn(Seq<char>) -> bool {
    |text: Seq<char>| exists|t: &str| t@ == text && #[trigger] f.ensures((t,), true)
}

fn ask_text<F: Fn(&str) -> bool>(f: &F, t: &str) -> (b: bool)
    requires
        text_check(*f),
    ensures
        b == accepted(*f)(t@),
{
    let b = f(t);
    proof {
        if !b {
            if accepted(*f)(t@) {
                let w = choose|w: &str| w@ == t@ && #[trigger] f.ensures((w,), true);
                assert(f.ensures((t,), b));
                assert(false);
            }
        }
    }
    b
}

/// Recovers the embedded source from an SVG. `Ok(None)` means the document
/// has no source block; a malformed block is an error. The options
/// document must pass `options_ok` (which the caller gives, such as
/// "parses as render options"); it is checked before the payload is
/// decoded.
pub fn extract<F: Fn(&str) -> bool>(svg: &str, options_ok: F) -> (r: Result<Option<EmbeddedSource>, EmbedError>)
    requires
        text_check(options_ok),
    ensures
        extract_view(r) == extract_checked_spec(svg@, accepted(options_ok)),
{
    let parts = match extract_parts(svg) {
        Ok(None) => return Ok(None),
        Ok(Some(p)) => p,
        Err(e) => return Err(e),
    };
    if !ask_text(&options_ok, parts.options.as_str()) {
        return Err(EmbedError::BadOptions(parts.options));
    }
    let data = match &parts.data {
        Some(d) => decode_payload(Some(d.as_str())),
        None => decode_payload(None),
    };
    match data {
        Ok(bytes) => Ok(Some(EmbeddedSource { kind: parts.kind, data: bytes, options: parts.options })),
        Err(e) => Err(e),
    }
}

/// Whether `text` carries the source-block marker.
pub fn has_source_marker(text: &str) -> (b: bool)
    ensures
        b == (find_from(text@, "terminal-svg-source"@, 0) is Some),
{
    let v = to_chars(text);
    let marker = to_chars("terminal-svg-source");
    find_chars(&v, &marker, 0).is_some()
}

} // verus!

verus! {

proof fn lemma_literals()
    ensures
        meta_open().len() == 35,
        meta_close().len() == 11,
        block_head().len() == 116,
        options_open().len() == 16,
        data_open().len() == 52,
        block_tail().len() == 37,
        forall|j: int| 0 <= j < 35 ==> block_head()[j] == meta_open()[j],
        forall|j: int| 0 <= j < 35 ==> meta_open()[j] != '\n',
        forall|j: int| 0 <= j < 11 ==> block_tail()[26 + j] == meta_close()[j],
        meta_open()[0] == '<',
        meta_close()[0] == '<' && meta_close()[1] == '/' && meta_close()[2] == 'm',
        forall|k: int| 0 <= k < 116 && block_head()[k] == '<' ==> k == 0 || k == 35,
        forall|k: int| 0 <= k < 116 && block_head()[k] == 'k' ==> k == 110,
        block_head()[1] == 'm' && block_head()[36] == 't' && block_head()[41] == 's',
        block_head()[110] == 'k' && block_head()[111] == 'i' && block_head()[112] == 'n'
            && block_head()[113] == 'd' && block_head()[114] == '=' && block_head()[115] == '"',
        forall|k: int| 0 <= k < 16 && options_open()[k] == '<' ==> k == 2,
        forall|k: int| 0 <= k < 16 && options_open()[k] == '>' ==> k == 1 || k == 15,
        options_open()[0] == '"' && options_open()[3] == 't' && options_open()[8] == 'o',
        options_open()[2] == '<' && options_open()[15] == '>',
        data_open()[0] == '<' && data_open()[15] == '<' && data_open()[51] == '>',
        block_tail()[0] == '<',
        forall|j: int| 0 <= j < 12 ==> options_open()[3 + j] == "tsvg:options"@[j],
        forall|k: int| 0 <= k < 52 && data_open()[k] == '<' ==> k == 0 || k == 15,
        forall|k: int| 0 <= k < 52 && data_open()[k] == '>' ==> k == 14 || k == 51,
        data_open()[1] == '/' && data_open()[2] == 't' && data_open()[16] == 't',
        forall|j: int| 0 <= j < 12 ==> data_open()[2 + j] == "tsvg:options"@[j],
        data_open()[14] == '>',
        forall|j: int| 0 <= j < 9 ==> data_open()[16 + j] == "tsvg:data"@[j],
        forall|k: int| 0 <= k < 37 && block_tail()[k] == '<' ==> k == 0 || k == 12 || k == 26,
        block_tail()[1] == '/' && block_tail()[2] == 't' && block_tail()[14] == 't',
        forall|j: int| 0 <= j < 9 ==> block_tail()[2 + j] == "tsvg:data"@[j],
        block_tail()[11] == '>',
        "tsvg:options"@ =~= seq!['t', 's', 'v', 'g', ':', 'o', 'p', 't', 'i', 'o', 'n', 's'],
        "tsvg:data"@ =~= seq!['t', 's', 'v', 'g', ':', 'd', 'a', 't', 'a'],
        "kind"@ =~= seq!['k', 'i', 'n', 'd'],
        "cast"@ =~= seq!['c', 'a', 's', 't'],
        "ansi"@ =~= seq!['a', 'n', 's', 'i'],
        "cast"@ != "ansi"@,
{
    reveal_strlit("<metadata id=\"terminal-svg-source\">");
    reveal_strlit("</metadata>");
    reveal_strlit(
        "<metadata id=\"terminal-svg-source\"><tsvg:source xmlns:tsvg=\"https://terminal-svg.dev/ns/source/1\" version=\"1\" kind=\"",
    );
    reveal_strlit("\"><tsvg:options>");
    reveal_strlit("</tsvg:options><tsvg:data encoding=\"deflate+base64\">");
    reveal_strlit("</tsvg:data></tsvg:source></metadata>");
    reveal_strlit("tsvg:options");
    reveal_strlit("tsvg:data");
    reveal_strlit("kind");
    reveal_strlit("cast");
    reveal_strlit("ansi");
    assert("cast"@[0] != "ansi"@[0]);
}

} // verus!

verus! {

/// The inserted block holds the first marker of the document.
proof fn lemma_marker_first(a: Seq<char>, rest: Seq<char>)
    requires
        find_from(a, meta_open(), 0) is None,
        rest.len() >= 35,
        forall|j: int| 0 <= j < 35 ==> rest[j] == meta_open()[j],
    ensures
        find_from(a + seq!['\n'] + rest, meta_open(), 0) == Some(a.len() as int + 1),
{
    lemma_literals();
    let s = a + seq!['\n'] + rest;
    let mo = meta_open();
    let n: int = a.len() as int + 1;
    assert forall|j: int| 0 <= j < mo.len() implies #[trigger] s[n + j] == mo[j] by {
        assert(s[n + j] == rest[j]);
    }
    assert(occurs_at(s, mo, n));
    assert forall|j: int| 0 <= j < n implies !occurs_at(s, mo, j) by {
        if occurs_at(s, mo, j) {
            if j + 35 <= a.len() {
                assert forall|k: int| 0 <= k < mo.len() implies #[trigger] a[j + k] == mo[k] by {
                    assert(s[j + k] == a[j + k]);
                }
                assert(occurs_at(a, mo, j));
                lemma_find_never(a, mo, 0, j);
            } else {
                let k = a.len() - j;
                assert(s[j + k] == '\n');
                assert(mo[k] != '\n');
            }
        }
    }
    lemma_find_first(s, mo, 0, n);
}

} // verus!

verus! {

/// Where each piece of a source block starts, and what the block's
/// characters are piece by piece.
proof fn lemma_block_layout(kind: SourceKind, e: Seq<char>, d: Seq<char>, b: Seq<char>)
    ensures
        ({
            let s = source_block(kind, e, d) + b;
            let o5: int = 136 + e.len() as int;
            let o6: int = o5 + 52;
            let o7: int = o6 + d.len() as int;
            &&& source_block(kind, e, d).len() == o7 + 37
            &&& kind_name(kind).len() == 4
            &&& forall|k: int| 0 <= k < 116 ==> #[trigger] s[k] == block_head()[k]
            &&& forall|k: int| 116 <= k < 120 ==> #[trigger] s[k] == kind_name(kind)[k - 116]
            &&& forall|k: int| 120 <= k < 136 ==> #[trigger] s[k] == options_open()[k - 120]
            &&& forall|k: int| 136 <= k < o5 ==> #[trigger] s[k] == e[k - 136]
            &&& forall|k: int| o5 <= k < o6 ==> #[trigger] s[k] == data_open()[k - o5]
            &&& forall|k: int| o6 <= k < o7 ==> #[trigger] s[k] == d[k - o6]
            &&& forall|k: int| o7 <= k < o7 + 37 ==> #[trigger] s[k] == block_tail()[k - o7]
            &&& forall|k: int| 116 <= k < 120 ==> #[trigger] s[k] != '<' && s[k] != '"' && s[k] != '>'
        }),
{
    lemma_literals();
    let kn = kind_name(kind);
    let s = source_block(kind, e, d) + b;
    let o5: int = 136 + e.len() as int;
    let o6: int = o5 + 52;
    let o7: int = o6 + d.len() as int;
    let p1 = block_head();
    let p12 = p1 + kn;
    let p13 = p12 + options_open();
    let p14 = p13 + e;
    let p15 = p14 + data_open();
    let p16 = p15 + d;
    let p17 = p16 + block_tail();
    assert(source_block(kind, e, d) == p17);
    assert forall|k: int| 0 <= k < 116 implies #[trigger] s[k] == p1[k] by {
        assert(s[k] == p17[k]);
        assert(p17[k] == p16[k]);
        assert(p16[k] == p15[k]);
        assert(p15[k] == p14[k]);
        assert(p14[k] == p13[k]);
        assert(p13[k] == p12[k]);
    }
    assert forall|k: int| 116 <= k < 120 implies #[trigger] s[k] == kn[k - 116] by {
        assert(s[k] == p17[k]);
        assert(p17[k] == p16[k]);
        assert(p16[k] == p15[k]);
        assert(p15[k] == p14[k]);
        assert(p14[k] == p13[k]);
        assert(p13[k] == p12[k]);
    }
    assert forall|k: int| 120 <= k < 136 implies #[trigger] s[k] == options_open()[k - 120] by {
        assert(s[k] == p17[k]);
        assert(p17[k] == p16[k]);
        assert(p16[k] == p15[k]);
        assert(p15[k] == p14[k]);
        assert(p14[k] == p13[k]);
    }
    assert forall|k: int| 136 <= k < o5 implies #[trigger] s[k] == e[k - 136] by {
        assert(s[k] == p17[k]);
        assert(p17[k] == p16[k]);
        assert(p16[k] == p15[k]);
        assert(p15[k] == p14[k]);
    }
    assert forall|k: int| o5 <= k < o6 implies #[trigger] s[k] == data_open()[k - o5] by {
        assert(s[k] == p17[k]);
        assert(p17[k] == p16[k]);
        assert(p16[k] == p15[k]);
    }
    assert forall|k: int| o6 <= k < o7 implies #[trigger] s[k] == d[k - o6] by {
        assert(s[k] == p17[k]);
        assert(p17[k] == p16[k]);
    }
    assert forall|k: int| o7 <= k < o7 + 37 implies #[trigger] s[k] == block_tail()[k - o7] by {
        assert(s[k] == p17[k]);
    }
    assert forall|k: int| 116 <= k < 120 implies #[trigger] s[k] != '<' && s[k] != '"' && s[k] != '>' by {
        assert(s[k] == kn[k - 116]);
    }
}

/// The block's closing tag is the first `</metadata>` after its start.
proof fn lemma_block_end(kind: SourceKind, e: Seq<char>, d: Seq<char>, b: Seq<char>)
    requires
        forall|i: int| 0 <= i < e.len() ==> e[i] != '<',
        forall|i: int| 0 <= i < d.len() ==> d[i] != '<',
    ensures
        find_from(source_block(kind, e, d) + b, meta_close(), 0) == Some(
            source_block(kind, e, d).len() - 11,
        ),
{
    lemma_literals();
    lemma_block_layout(kind, e, d, b);
    let s = source_block(kind, e, d) + b;
    let mc = meta_close();
    let o5: int = 136 + e.len() as int;
    let o6: int = o5 + 52;
    let o7: int = o6 + d.len() as int;
    let at: int = o7 + 26;
    assert forall|j: int| 0 <= j < mc.len() implies #[trigger] s[at + j] == mc[j] by {
        assert(s[at + j] == block_tail()[26 + j]);
    }
    assert(occurs_at(s, mc, at));
    assert forall|k: int| 0 <= k < at implies !occurs_at(s, mc, k) by {
        if occurs_at(s, mc, k) {
            assert(s[k + 0] == mc[0]);
            assert(s[k + 1] == mc[1]);
            assert(s[k + 2] == mc[2]);
            if k < 116 {
                assert(block_head()[k] == '<');
            } else if k < 120 {
            } else if k < 136 {
                assert(options_open()[k - 120] == '<');
            } else if k < o5 {
                assert(e[k - 136] == '<');
            } else if k < o6 {
                assert(data_open()[k - o5] == '<');
            } else if k < o7 {
                assert(d[k - o6] == '<');
            } else {
                assert(block_tail()[k - o7] == '<');
            }
        }
    }
    lemma_find_first(s, mc, 0, at);
}

} // verus!

verus! {

/// The block up to its closing tag, as extraction reads it.
pub open spec fn block_body(kind: SourceKind, e: Seq<char>, d: Seq<char>, b: Seq<char>) -> Seq<char> {
    (source_block(kind, e, d) + b).take(source_block(kind, e, d).len() - 11)
}

proof fn lemma_body_kind(kind: SourceKind, e: Seq<char>, d: Seq<char>, b: Seq<char>)
    ensures
        attr_value_spec(block_body(kind, e, d, b), "kind"@) == Some(kind_name(kind)),
{
    lemma_literals();
    lemma_block_layout(kind, e, d, b);
    let s = source_block(kind, e, d) + b;
    let t = block_body(kind, e, d, b);
    let pk = "kind"@ + seq!['=', '"'];
    assert(pk =~= seq!['k', 'i', 'n', 'd', '=', '"']);
    assert forall|j: int| 0 <= j < pk.len() implies #[trigger] t[110 + j] == pk[j] by {
        assert(t[110 + j] == s[110 + j]);
    }
    assert(occurs_at(t, pk, 110));
    assert forall|k: int| 0 <= k < 110 implies !occurs_at(t, pk, k) by {
        if occurs_at(t, pk, k) {
            assert(t[k + 0] == pk[0]);
            assert(t[k] == s[k]);
        }
    }
    lemma_find_first(t, pk, 0, 110);
    let rest = t.skip(110 + "kind"@.len() as int + 2);
    let q = seq!['"'];
    assert forall|j: int| 0 <= j < q.len() implies #[trigger] rest[4 + j] == q[j] by {
        assert(rest[4] == t[120]);
        assert(t[120] == s[120]);
    }
    assert(occurs_at(rest, q, 4));
    assert forall|k: int| 0 <= k < 4 implies !occurs_at(rest, q, k) by {
        if occurs_at(rest, q, k) {
            assert(rest[k + 0] == q[0]);
            assert(rest[k] == t[116 + k]);
            assert(t[116 + k] == s[116 + k]);
        }
    }
    lemma_find_first(rest, q, 0, 4);
    assert forall|j: int| 0 <= j < 4 implies rest.take(4)[j] == kind_name(kind)[j] by {
        assert(rest[j] == t[116 + j]);
        assert(t[116 + j] == s[116 + j]);
    }
    assert(rest.take(4) =~= kind_name(kind));
}

#[verifier::rlimit(90)]
proof fn lemma_body_options(kind: SourceKind, e: Seq<char>, d: Seq<char>, b: Seq<char>)
    requires
        forall|i: int| 0 <= i < e.len() ==> e[i] != '<',
    ensures
        element_text_spec(block_body(kind, e, d, b), "tsvg:options"@) == Some(e),
{
    lemma_literals();
    lemma_block_layout(kind, e, d, b);
    let s = source_block(kind, e, d) + b;
    let t = block_body(kind, e, d, b);
    let o5: int = 136 + e.len() as int;
    let tag = "tsvg:options"@;
    let op = seq!['<'] + tag;
    assert forall|j: int| 0 <= j < op.len() implies #[trigger] t[122 + j] == op[j] by {
        assert(t[122 + j] == s[122 + j]);
        assert(s[122 + j] == options_open()[2 + j]);
        if j > 0 {
            assert(op[j] == tag[j - 1]);
            assert(options_open()[3 + (j - 1)] == tag[j - 1]);
        }
    }
    assert(occurs_at(t, op, 122));
    assert forall|k: int| 0 <= k < 122 implies !occurs_at(t, op, k) by {
        if occurs_at(t, op, k) {
            assert(t[k + 0] == op[0]);
            assert(t[k + 1] == op[1]);
            assert(t[k + 6] == op[6]);
            assert(t[k] == s[k]);
            assert(t[k + 1] == s[k + 1]);
            assert(t[k + 6] == s[k + 6]);
        }
    }
    lemma_find_first(t, op, 0, 122);
    let gt = seq!['>'];
    assert(t[135] == s[135]);
    assert(t[135int + 0] == gt[0]);
    assert(occurs_at(t, gt, 135));
    assert forall|k: int| 122 <= k < 135 implies !occurs_at(t, gt, k) by {
        if occurs_at(t, gt, k) {
            assert(t[k + 0] == gt[0]);
            assert(t[k] == s[k]);
        }
    }
    lemma_find_first(t, gt, 122, 135);
    let cp = seq!['<', '/'] + tag + seq!['>'];
    assert forall|j: int| 0 <= j < cp.len() implies #[trigger] t[o5 + j] == cp[j] by {
        assert(t[o5 + j] == s[o5 + j]);
        assert(s[o5 + j] == data_open()[j]);
        if 2 <= j < 14 {
            assert(cp[j] == tag[j - 2]);
            assert(data_open()[2 + (j - 2)] == tag[j - 2]);
        }
    }
    assert(occurs_at(t, cp, o5));
    assert forall|k: int| 136 <= k < o5 implies !occurs_at(t, cp, k) by {
        if occurs_at(t, cp, k) {
            assert(t[k + 0] == cp[0]);
            assert(t[k] == s[k]);
        }
    }
    lemma_find_first(t, cp, 136, o5);
    assert forall|j: int| 0 <= j < e.len() implies t.subrange(136, o5)[j] == e[j] by {
        assert(t[136 + j] == s[136 + j]);
    }
    assert(t.subrange(136, o5) =~= e);
}

#[verifier::rlimit(90)]
proof fn lemma_body_data(kind: SourceKind, e: Seq<char>, d: Seq<char>, b: Seq<char>)
    requires
        forall|i: int| 0 <= i < e.len() ==> e[i] != '<',
        forall|i: int| 0 <= i < d.len() ==> d[i] != '<',
    ensures
        element_text_spec(block_body(kind, e, d, b), "tsvg:data"@) == Some(d),
{
    lemma_literals();
    lemma_block_layout(kind, e, d, b);
    let s = source_block(kind, e, d) + b;
    let t = block_body(kind, e, d, b);
    let o5: int = 136 + e.len() as int;
    let o6: int = o5 + 52;
    let o7: int = o6 + d.len() as int;
    let tag = "tsvg:data"@;
    let op = seq!['<'] + tag;
    let open: int = o5 + 15;
    assert forall|j: int| 0 <= j < op.len() implies #[trigger] t[open + j] == op[j] by {
        assert(t[open + j] == s[open + j]);
        assert(s[open + j] == data_open()[15 + j]);
        if j > 0 {
            assert(op[j] == tag[j - 1]);
            assert(data_open()[16 + (j - 1)] == tag[j - 1]);
        }
    }
    assert(occurs_at(t, op, open));
    assert forall|k: int| 0 <= k < open implies !occurs_at(t, op, k) by {
        if occurs_at(t, op, k) {
            assert(t[k + 0] == op[0]);
            assert(t[k + 1] == op[1]);
            assert(t[k + 6] == op[6]);
            assert(t[k] == s[k]);
            assert(t[k + 1] == s[k + 1]);
            assert(t[k + 6] == s[k + 6]);
            if k >= 136 && k < o5 {
                assert(e[k - 136] == '<');
            }
        }
    }
    lemma_find_first(t, op, 0, open);
    let gt = seq!['>'];
    let close_gt: int = o5 + 51;
    assert(t[close_gt] == s[close_gt]);
    assert(t[close_gt + 0] == gt[0]);
    assert(occurs_at(t, gt, close_gt));
    assert forall|k: int| open <= k < close_gt implies !occurs_at(t, gt, k) by {
        if occurs_at(t, gt, k) {
            assert(t[k + 0] == gt[0]);
            assert(t[k] == s[k]);
        }
    }
    lemma_find_first(t, gt, open, close_gt);
    let cp = seq!['<', '/'] + tag + seq!['>'];
    assert forall|j: int| 0 <= j < cp.len() implies #[trigger] t[o7 + j] == cp[j] by {
        assert(t[o7 + j] == s[o7 + j]);
        assert(s[o7 + j] == block_tail()[j]);
        if 2 <= j < 11 {
            assert(cp[j] == tag[j - 2]);
            assert(block_tail()[2 + (j - 2)] == tag[j - 2]);
        }
    }
    assert(occurs_at(t, cp, o7));
    assert forall|k: int| o6 <= k < o7 implies !occurs_at(t, cp, k) by {
        if occurs_at(t, cp, k) {
            assert(t[k + 0] == cp[0]);
            assert(t[k] == s[k]);
        }
    }
    lemma_find_first(t, cp, o6, o7);
    assert forall|j: int| 0 <= j < d.len() implies t.subrange(o6, o7)[j] == d[j] by {
        assert(t[o6 + j] == s[o6 + j]);
    }
    assert(t.subrange(o6, o7) =~= d);
}

} // verus!

verus! {

/// The block starts with the marker extraction looks for.
proof fn lemma_head_marker()
    ensures
        meta_open().len() == 35,
        block_head().len() == 116,
        forall|j: int| 0 <= j < 35 ==> block_head()[j] == meta_open()[j],
{
    reveal_strlit("<metadata id=\"terminal-svg-source\">");
    reveal_strlit(
        "<metadata id=\"terminal-svg-source\"><tsvg:source xmlns:tsvg=\"https://terminal-svg.dev/ns/source/1\" version=\"1\" kind=\"",
    );
}

proof fn lemma_block_prefix(kind: SourceKind, e: Seq<char>, d: Seq<char>, b: Seq<char>)
    ensures
        source_block(kind, e, d).len() >= 35,
        forall|j: int| 0 <= j < 35 ==> (source_block(kind, e, d) + b)[j] == meta_open()[j],
{
    lemma_head_marker();
    let blk = source_block(kind, e, d);
    let p = block_head();
    assert(blk =~= p + (kind_name(kind) + options_open() + e + data_open() + d + block_tail()));
    assert forall|j: int| 0 <= j < 35 implies (blk + b)[j] == meta_open()[j] by {
        assert((blk + b)[j] == blk[j]);
        assert(blk[j] == p[j]);
    }
}

/// A document with a fresh block inserted yields that block's pieces.
#[verifier::rlimit(60)]
proof fn lemma_parts_found(a: Seq<char>, kind: SourceKind, e: Seq<char>, d: Seq<char>, b: Seq<char>)
    requires
        find_from(a, meta_open(), 0) is None,
        forall|i: int| 0 <= i < e.len() ==> e[i] != '<',
        forall|i: int| 0 <= i < d.len() ==> d[i] != '<',
    ensures
        extract_parts_spec(a + seq!['\n'] + (source_block(kind, e, d) + b)) == (PartsView::Found {
            kind,
            options: xml_text_unescape_spec(e),
            data: Some(d),
        }),
{
    let blk = source_block(kind, e, d);
    let out = a + seq!['\n'] + (blk + b);
    lemma_block_prefix(kind, e, d, b);
    lemma_marker_first(a, blk + b);
    let start = a.len() as int + 1;
    assert(out.skip(start) =~= blk + b);
    lemma_block_end(kind, e, d, b);
    assert(out.skip(start).take(blk.len() - 11) == block_body(kind, e, d, b));
    lemma_body_kind(kind, e, d, b);
    lemma_body_options(kind, e, d, b);
    lemma_body_data(kind, e, d, b);
    lemma_kind_names(kind);
}

proof fn lemma_kind_names(kind: SourceKind)
    ensures
        kind_name(kind) == "cast"@ <==> kind == SourceKind::Cast,
        kind_name(kind) == "cast"@ || kind_name(kind) == "ansi"@,
{
    reveal_strlit("cast");
    reveal_strlit("ansi");
    assert("cast"@[0] != "ansi"@[0]);
}

/// A payload made by `embed` decodes back to the embedded bytes.
proof fn lemma_payload_decodes(data: Seq<u8>)
    requires
        inflate_raw(deflate_best(data)) == Some(data),
        base64_decode(base64_encode(deflate_best(data))) == Some(deflate_best(data)),
        forall|i: int|
            0 <= i < base64_encode(deflate_best(data)).len() ==> is_base64_char(
                #[trigger] base64_encode(deflate_best(data))[i],
            ),
    ensures
        decode_spec(Some(base64_encode(deflate_best(data)))) == Ok::<Seq<u8>, EmbedErrorView>(data),
{
    let d = base64_encode(deflate_best(data));
    if d.len() > 0 {
        assert(is_base64_char(d[0]));
        assert(is_base64_char(d[d.len() - 1]));
    }
    assert(trim_start_spec(d) == d);
    assert(trim_end_spec(d) == d);
}

/// A document with a fresh block inserted gives back what was embedded.
proof fn lemma_round_trip(svg: Seq<char>, kind: SourceKind, options: Seq<char>, data: Seq<u8>)
    requires
        0 <= insert_point(svg) <= svg.len(),
        find_from(svg.take(insert_point(svg)), meta_open(), 0) is None,
        inflate_raw(deflate_best(data)) == Some(data),
        base64_decode(base64_encode(deflate_best(data))) == Some(deflate_best(data)),
        forall|i: int|
            0 <= i < base64_encode(deflate_best(data)).len() ==> is_base64_char(
                #[trigger] base64_encode(deflate_best(data))[i],
            ),
    ensures
        extract_spec(embed_spec(svg, kind, options, data)) == (ExtractView::Found {
            kind,
            options,
            data,
        }),
{
    let at = insert_point(svg);
    let a = svg.take(at);
    let b = svg.skip(at);
    let e = xml_text_escape_spec(options);
    let d = base64_encode(deflate_best(data));
    let blk = source_block(kind, e, d);
    lemma_escape_has_no_lt(options);
    assert forall|i: int| 0 <= i < e.len() implies e[i] != '<' by {
        assert(e[i] == xml_text_escape_spec(options)[i]);
    }
    assert forall|i: int| 0 <= i < d.len() implies d[i] != '<' by {
        assert(is_base64_char(d[i]));
    }
    vstd::seq_lib::lemma_concat_associative(a + seq!['\n'], blk, b);
    assert(embed_spec(svg, kind, options, data) == a + seq!['\n'] + (blk + b));
    lemma_parts_found(a, kind, e, d, b);
    unescape_inverts_escape(options);
    lemma_payload_decodes(data);
}

/// Inserts the source block right after the opening `<svg …>` tag, on a
/// line of its own. The document around it is untouched, and a document
/// that carries no source block before that point extracts back to
/// exactly what was embedded.
pub fn embed(svg: &str, source: &EmbeddedSource) -> (out: String)
    ensures
        out@ == embed_spec(svg@, source.kind, source.options@, source.data@),
        find_from(svg@.take(insert_point(svg@)), meta_open(), 0) is None ==> extract_spec(out@)
            == (ExtractView::Found { kind: source.kind, options: source.options@, data: source.data@ }),
        find_from(svg@.take(insert_point(svg@)), meta_open(), 0) is None ==> forall|ok: spec_fn(Seq<char>) -> bool|
            #[trigger] ok(source.options@) ==> extract_checked_spec(out@, ok) == (ExtractView::Found {
                kind: source.kind,
                options: source.options@,
                data: source.data@,
            }),
{
    let v = to_chars(svg);
    let at = insertion_point(&v);
    let deflated = deflate(source.data.as_slice());
    let payload = encode_base64(deflated.as_slice());
    let options = xml_text_escape(source.options.as_str());
    let mut out = sub_string(&v, 0, at);
    push_char(&mut out, '\n');
    let ghost pre = out@;
    push_str(
        &mut out,
        "<metadata id=\"terminal-svg-source\"><tsvg:source xmlns:tsvg=\"https://terminal-svg.dev/ns/source/1\" version=\"1\" kind=\"",
    );
    let ghost g = block_head();
    assert(out@ == pre + g);
    push_str(&mut out, source.kind.as_str());
    let ghost g = g + kind_name(source.kind);
    assert(out@ =~= pre + g);
    push_str(&mut out, "\"><tsvg:options>");
    let ghost g = g + options_open();
    assert(out@ =~= pre + g);
    push_str(&mut out, options.as_str());
    let ghost g = g + options@;
    assert(out@ =~= pre + g);
    push_str(&mut out, "</tsvg:options><tsvg:data encoding=\"deflate+base64\">");
    let ghost g = g + data_open();
    assert(out@ =~= pre + g);
    push_str(&mut out, payload.as_str());
    let ghost g = g + payload@;
    assert(out@ =~= pre + g);
    push_str(&mut out, "</tsvg:data></tsvg:source></metadata>");
    let ghost g = g + block_tail();
    assert(out@ =~= pre + g);
    let tail = sub_string(&v, at, v.len());
    push_str(&mut out, tail.as_str());
    proof {
        assert(g == source_block(source.kind, options@, payload@));
        assert(v@.subrange(0, at as int) =~= svg@.take(at as int));
        assert(v@.subrange(at as int, v@.len() as int) =~= svg@.skip(at as int));
        assert(out@ =~= embed_spec(svg@, source.kind, source.options@, source.data@));
        if find_from(svg@.take(insert_point(svg@)), meta_open(), 0) is None {
            lemma_round_trip(svg@, source.kind, source.options@, source.data@);
        }
    }
    out
}

} // verus!

verus! {

/// Where `terminal-svg extract` reads and writes.
pub struct ExtractArgs {
    /// SVG file written by terminal-svg.
    pub input: std::path::PathBuf,
    /// Where to write the recovered .cast or .ansi source (default: stdout).
    pub output: Option<std::path::PathBuf>,
}

/// `s` without leading whitespace.
pub fn trim_start(s: &str) -> (t: String)
    ensures
        t@ == trim_start_spec(s@),
{
    let v = to_chars(s);
    let n = v.len();
    let mut i: usize = 0;
    assert(v@.skip(0) =~= v@);
    while i < n && whitespace(v[i])
        invariant
            i <= n,
            n == v@.len(),
            v@ == s@,
            trim_start_spec(v@.skip(i as int)) == trim_start_spec(s@),
        decreases n - i,
    {
        assert(v@.skip(i as int).drop_first() =~= v@.skip(i + 1));
        i += 1;
    }
    assert(v@.subrange(i as int, n as int) =~= v@.skip(i as int));
    sub_string(&v, i, n)
}

/// Whether `s` begins with `p`.
pub open spec fn starts_with(s: Seq<char>, p: Seq<char>) -> bool {
    p.len() <= s.len() && s.take(p.len() as int) == p
}

fn begins_with(s: &Vec<char>, p: &str) -> (b: bool)
    ensures
        b == starts_with(s@, p@),
{
    let pv = to_chars(p);
    if pv.len() > s.len() {
        return false;
    }
    let mut i: usize = 0;
    while i < pv.len()
        invariant
            i <= pv@.len(),
            pv@ == p@,
            pv@.len() <= s@.len(),
            forall|j: int| 0 <= j < i ==> s@[j] == pv@[j],
        decreases pv@.len() - i,
    {
        if s[i] != pv[i] {
            assert(s@.take(pv@.len() as int)[i as int] != pv@[i as int]);
            return false;
        }
        i += 1;
    }
    assert(s@.take(pv@.len() as int) =~= pv@);
    true
}

/// What an opened file is to the editor.
#[derive(Debug, Clone, Copy, PartialEq, Eq, Structural)]
pub enum SniffedKind {
    /// An SVG document, which must carry a source block.
    Svg,
    /// An asciicast recording.
    Cast,
    /// Anything else is a raw ANSI stream.
    Ansi,
}

/// Classifies an opened file by its text with leading whitespace removed:
/// XML or `<svg` is an SVG; a `{` that parses as a recording is a cast;
/// anything else is ANSI.
pub fn sniff_kind(head: &str, parses_as_cast: bool) -> (k: SniffedKind)
    ensures
        k == if starts_with(head@, "<?xml"@) || starts_with(head@, "<svg"@) {
            SniffedKind::Svg
        } else if starts_with(head@, "{"@) && parses_as_cast {
            SniffedKind::Cast
        } else {
            SniffedKind::Ansi
        },
{
    let v = to_chars(head);
    if begins_with(&v, "<?xml") || begins_with(&v, "<svg") {
        SniffedKind::Svg
    } else if begins_with(&v, "{") && parses_as_cast {
        SniffedKind::Cast
    } else {
        SniffedKind::Ansi
    }
}

} // verus!
