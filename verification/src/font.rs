//! The embedded font: subsetting it to the glyphs a document uses, and
//! which characters it covers.
use std::collections::BTreeSet;

use vstd::prelude::*;

use crate::embed::{base64_encode, encode_base64};

verus! {

#[verifier::external_type_specification]
#[verifier::external_body]
pub struct ExFace<'a>(ttf_parser::Face<'a>);

/// Whether ttf_parser reads face 0 of `font`.
pub uninterp spec fn face_parses(font: Seq<u8>) -> bool;

/// The glyph ttf_parser's cmap lookup finds for `c` in face 0 of `font`.
pub uninterp spec fn face_glyph(font: Seq<u8>, c: char) -> Option<u16>;

/// The font allsorts makes of `font` keeping only `glyph_ids` (minimal
/// table profile, Unicode cmap); `None` when it refuses.
pub uninterp spec fn subset_minimal(font: Seq<u8>, glyph_ids: Seq<u16>) -> Option<Seq<u8>>;

/// Why allsorts refuses to subset `font` to `glyph_ids`: the failing step
/// and its error's `Display` text.
pub uninterp spec fn subset_refusal(font: Seq<u8>, glyph_ids: Seq<u16>) -> Seq<char>;

/// The WOFF2 file ttf2woff2 makes of `ttf` at the default Brotli quality;
/// `None` when it refuses.
pub uninterp spec fn woff2_of(ttf: Seq<u8>) -> Option<Seq<u8>>;

/// Why ttf2woff2 refuses `ttf`: its error's `Display` text.
pub uninterp spec fn woff2_refusal(ttf: Seq<u8>) -> Seq<char>;

/// Parses face 0 with `ttf_parser::Face::parse` and looks up each char of
/// `chars` (in the set's order) with `Face::glyph_index`. Claimed: the
/// lookup succeeds exactly when `face_parses(font)`, and the glyphs found
/// are `face_glyph` of the set's chars, each char looked up once.
#[verifier::external_body]
fn lookup_glyphs(font: &[u8], chars: &BTreeSet<char>) -> (r: Option<Vec<Option<u16>>>)
    ensures
        r is Some == face_parses(font@),
        r matches Some(gs) ==> (forall|i: int|
            #![trigger gs@[i]]
            0 <= i < gs@.len() ==> exists|c: char|
                #![trigger face_glyph(font@, c)]
                chars@.contains(c) && gs@[i] == face_glyph(font@, c)),
        r matches Some(gs) ==> (forall|c: char|
            #![trigger chars@.contains(c)]
            chars@.contains(c) ==> exists|i: int|
                #![trigger gs@[i]]
                0 <= i < gs@.len() && gs@[i] == face_glyph(font@, c)),
{
    let face = ttf_parser::Face::parse(font, 0).ok()?;
    Some(chars.iter().map(|&c| face.glyph_index(c).map(|g| g.0)).collect())
}

/// Subsets with allsorts (`ReadScope::read::<FontData>`, `table_provider(0)`,
/// `subset` with the minimal profile and a Unicode cmap). Claimed: it
/// succeeds exactly when `subset_minimal` is defined, and returns it; a
/// refusal's text is `subset_refusal`.
#[verifier::external_body]
fn subset_font(font: &[u8], glyph_ids: &Vec<u16>) -> (r: Result<Vec<u8>, String>)
    ensures
        match r {
            Ok(v) => subset_minimal(font@, glyph_ids@) == Some(v@),
            Err(m) => subset_minimal(font@, glyph_ids@) is None && m@ == subset_refusal(font@, glyph_ids@),
        },
{
    let scope = allsorts::binary::read::ReadScope::new(font);
    let file = scope.read::<allsorts::font_data::FontData<'_>>().map_err(|e| format!("failed to read font tables: {e}"))?;
    let provider = file.table_provider(0).map_err(|e| format!("failed to open font table provider: {e}"))?;
    allsorts::subset::subset(&provider, glyph_ids, &allsorts::subset::SubsetProfile::Minimal, allsorts::subset::CmapTarget::Unicode).map_err(|e| format!("font subsetting failed: {e}"))
}

/// Encodes with `ttf2woff2::encode` at the default Brotli quality. Claimed:
/// it succeeds exactly when `woff2_of` is defined, and returns it; a
/// refusal's text is `woff2_refusal`.
#[verifier::external_body]
fn encode_woff2(ttf: &[u8]) -> (r: Result<Vec<u8>, String>)
    ensures
        match r {
            Ok(v) => woff2_of(ttf@) == Some(v@),
            Err(m) => woff2_of(ttf@) is None && m@ == woff2_refusal(ttf@),
        },
{
    ttf2woff2::encode(ttf, ttf2woff2::BrotliQuality::default()).map_err(|e| format!("woff2 encoding failed: {e}"))
}

/// Why a face could not be used.
#[derive(Debug)]
pub enum FontError {
    /// The font data is not a font ttf_parser reads.
    Parse,
    /// allsorts could not subset it (its reason).
    Subset(String),
    /// ttf2woff2 could not encode the subset (its reason).
    Woff2(String),
}

pub ghost enum FontErrorView {
    Parse,
    Subset(Seq<char>),
    Woff2(Seq<char>),
}

pub open spec fn font_error_view(e: FontError) -> FontErrorView {
    match e {
        FontError::Parse => FontErrorView::Parse,
        FontError::Subset(m) => FontErrorView::Subset(m@),
        FontError::Woff2(m) => FontErrorView::Woff2(m@),
    }
}

/// The glyphs a subset keeps: `.notdef` (glyph 0) and every glyph the face
/// has for one of `chars`.
pub open spec fn glyph_set(font: Seq<u8>, chars: Set<char>) -> Set<u16> {
    Set::new(
        |g: u16| g == 0 || exists|c: char| chars.contains(c) && face_glyph(font, c) == Some(g),
    )
}

pub open spec fn increasing(s: Seq<u16>) -> bool {
    forall|i: int, j: int| 0 <= i < j < s.len() ==> s[i] < s[j]
}

/// The members of `s` in increasing order.
pub open spec fn sorted_ids(s: Set<u16>) -> Seq<u16> {
    choose|q: Seq<u16>| increasing(q) && q.to_set() == s
}

/// What subsetting `font` to `chars` gives: nothing when no requested
/// char is covered (embedding it would be pure dead weight), otherwise the
/// base64 WOFF2 of the subset.
pub open spec fn woff2_base64_spec(font: Seq<u8>, chars: Set<char>) -> Result<Option<Seq<char>>, FontErrorView> {
    if !face_parses(font) {
        Err(FontErrorView::Parse)
    } else {
        let ids = sorted_ids(glyph_set(font, chars));
        if ids.len() <= 1 {
            Ok(None)
        } else {
            match subset_minimal(font, ids) {
                None => Err(FontErrorView::Subset(subset_refusal(font, ids))),
                Some(ttf) => match woff2_of(ttf) {
                    None => Err(FontErrorView::Woff2(woff2_refusal(ttf))),
                    Some(w) => Ok(Some(base64_encode(w))),
                },
            }
        }
    }
}

proof fn lemma_increasing_unique(a: Seq<u16>, b: Seq<u16>)
    requires
        increasing(a),
        increasing(b),
        a.to_set() == b.to_set(),
    ensures
        a == b,
    decreases a.len(),
{
    if a.len() == 0 {
        if b.len() > 0 {
            assert(b.to_set().contains(b[0]));
            assert(!a.to_set().contains(b[0]));
        }
        assert(a =~= b);
    } else {
        assert(a.to_set().contains(a[0]));
        assert(b.contains(a[0]));
        assert(b.len() > 0);
        assert(b.to_set().contains(b[0]));
        assert(a.contains(b[0]));
        let i = choose|i: int| 0 <= i < b.len() && b[i] == a[0];
        let j = choose|j: int| 0 <= j < a.len() && a[j] == b[0];
        assert(a[0] <= a[j]);
        assert(b[0] <= b[i]);
        assert(a[0] == b[0]);
        let a2 = a.drop_first();
        let b2 = b.drop_first();
        assert(a2.to_set() =~= b2.to_set()) by {
            assert forall|x: u16| a2.to_set().contains(x) implies b2.to_set().contains(x) by {
                let k = choose|k: int| 0 <= k < a2.len() && a2[k] == x;
                assert(a[k + 1] == x);
                assert(a.contains(x));
                assert(a.to_set().contains(x));
                assert(b.to_set().contains(x));
                assert(b.contains(x));
                let m = choose|m: int| 0 <= m < b.len() && b[m] == x;
                assert(m != 0);
                assert(b2[m - 1] == x);
            }
            assert forall|x: u16| b2.to_set().contains(x) implies a2.to_set().contains(x) by {
                let k = choose|k: int| 0 <= k < b2.len() && b2[k] == x;
                assert(b[k + 1] == x);
                assert(b.contains(x));
                assert(b.to_set().contains(x));
                assert(a.to_set().contains(x));
                assert(a.contains(x));
                let m = choose|m: int| 0 <= m < a.len() && a[m] == x;
                assert(m != 0);
                assert(a2[m - 1] == x);
            }
        }
        lemma_increasing_unique(a2, b2);
        assert(a =~= b) by {
            assert forall|k: int| 0 <= k < a.len() implies a[k] == b[k] by {
                if k > 0 {
                    assert(a[k] == a2[k - 1]);
                    assert(b[k] == b2[k - 1]);
                }
            }
        }
    }
}

/// Adds `g` to an increasing list, keeping it increasing.
fn insert_sorted(v: &mut Vec<u16>, g: u16)
    requires
        increasing(old(v)@),
    ensures
        increasing(final(v)@),
        final(v)@.to_set() == old(v)@.to_set().insert(g),
{
    let mut i: usize = 0;
    while i < v.len() && v[i] < g
        invariant
            i <= v@.len(),
            forall|k: int| 0 <= k < i ==> v@[k] < g,
        decreases v@.len() - i,
    {
        i += 1;
    }
    if i < v.len() && v[i] == g {
        assert(v@.to_set().insert(g) =~= v@.to_set());
        return;
    }
    let ghost before = v@;
    v.insert(i, g);
    proof {
        assert forall|a: int, b: int| 0 <= a < b < v@.len() implies v@[a] < v@[b] by {
            if b < i {
            } else if b == i {
            } else if a < i {
                assert(v@[b] == before[b - 1]);
                assert(before[i as int] > g || before[i as int] >= g);
            } else if a == i {
                assert(v@[b] == before[b - 1]);
                assert(before[i as int] >= g);
                assert(before[i as int] != g);
                if b - 1 > i {
                    assert(before[i as int] < before[b - 1]);
                }
            } else {
                assert(v@[a] == before[a - 1]);
                assert(v@[b] == before[b - 1]);
            }
        }
        assert(v@.to_set() =~= before.to_set().insert(g)) by {
            assert forall|x: u16| v@.to_set().contains(x) implies before.to_set().insert(g).contains(x) by {
                let k = choose|k: int| 0 <= k < v@.len() && v@[k] == x;
                if k < i {
                    assert(before[k] == x);
                } else if k > i {
                    assert(before[k - 1] == x);
                }
            }
            assert forall|x: u16| before.to_set().insert(g).contains(x) implies v@.to_set().contains(x) by {
                if x == g {
                    assert(v@[i as int] == g);
                } else {
                    let k = choose|k: int| 0 <= k < before.len() && before[k] == x;
                    if k < i {
                        assert(v@[k] == x);
                    } else {
                        assert(v@[k + 1] == x);
                    }
                }
            }
        }
    }
}

/// Subsets a face down to `chars` and returns it as base64 WOFF2, ready
/// for a data: URI. Returns `None` when no requested char is covered by the
/// face. Uncovered chars are skipped: they render via the fallback font
/// stack.
pub fn woff2_base64(font_data: &[u8], chars: &BTreeSet<char>) -> (r: Result<Option<String>, FontError>)
    ensures
        match r {
            Ok(Some(s)) => woff2_base64_spec(font_data@, chars@) == Ok::<Option<Seq<char>>, FontErrorView>(Some(s@)),
            Ok(None) => woff2_base64_spec(font_data@, chars@) == Ok::<Option<Seq<char>>, FontErrorView>(None),
            Err(e) => woff2_base64_spec(font_data@, chars@) == Err::<Option<Seq<char>>, FontErrorView>(font_error_view(e)),
        },
{
    let glyphs = match lookup_glyphs(font_data, chars) {
        None => return Err(FontError::Parse),
        Some(gs) => gs,
    };
    let ghost want = glyph_set(font_data@, chars@);
    // .notdef is mandatory.
    let mut ids: Vec<u16> = Vec::new();
    ids.push(0);
    assert(ids@ =~= seq![0u16]);
    assert(ids@.to_set() =~= set![0u16]) by {
        assert forall|x: u16| ids@.to_set().contains(x) <==> set![0u16].contains(x) by {
            if x == 0 {
                assert(ids@[0] == x);
            }
        }
    }
    let mut i: usize = 0;
    while i < glyphs.len()
        invariant
            i <= glyphs@.len(),
            increasing(ids@),
            ids@.to_set() == set![0u16].union(
                Set::new(|g: u16| exists|k: int| 0 <= k < i && glyphs@[k] == Some(g)),
            ),
        decreases glyphs@.len() - i,
    {
        let ghost before = ids@.to_set();
        match glyphs[i] {
            Some(g) => {
                insert_sorted(&mut ids, g);
                assert(ids@.to_set() =~= set![0u16].union(
                    Set::new(|h: u16| exists|k: int| 0 <= k < i + 1 && glyphs@[k] == Some(h)),
                )) by {
                    assert(glyphs@[i as int] == Some(g));
                }
            },
            None => {
                assert(ids@.to_set() =~= set![0u16].union(
                    Set::new(|h: u16| exists|k: int| 0 <= k < i + 1 && glyphs@[k] == Some(h)),
                ));
            },
        }
        i += 1;
    }
    proof {
        assert(ids@.to_set() =~= want) by {
            assert forall|g: u16| want.contains(g) implies ids@.to_set().contains(g) by {
                if g != 0 {
                    let c = choose|c: char| chars@.contains(c) && face_glyph(font_data@, c) == Some(g);
                    let k = choose|k: int| 0 <= k < glyphs@.len() && glyphs@[k] == face_glyph(font_data@, c);
                    assert(glyphs@[k] == Some(g));
                }
            }
            assert forall|g: u16| ids@.to_set().contains(g) implies want.contains(g) by {
                if g != 0 {
                    let k = choose|k: int| 0 <= k < glyphs@.len() && glyphs@[k] == Some(g);
                    let c = choose|c: char| chars@.contains(c) && glyphs@[k] == face_glyph(font_data@, c);
                }
            }
        }
        assert(increasing(ids@) && ids@.to_set() == want);
        let q = sorted_ids(want);
        lemma_increasing_unique(q, ids@);
    }
    if ids.len() <= 1 {
        return Ok(None);
    }
    let subset = match subset_font(font_data, &ids) {
        Ok(s) => s,
        Err(e) => return Err(FontError::Subset(e)),
    };
    let woff2 = match encode_woff2(subset.as_slice()) {
        Ok(w) => w,
        Err(e) => return Err(FontError::Woff2(e)),
    };
    Ok(Some(encode_base64(woff2.as_slice())))
}

/// Which characters a face has glyphs for.
pub struct Coverage<'a> {
    face: ttf_parser::Face<'a>,
    font: &'a [u8],
}

impl<'a> Coverage<'a> {
    pub closed spec fn font_view(&self) -> Seq<u8> {
        self.font@
    }

    /// Calls `ttf_parser::Face::glyph_index`. Claimed: true exactly when
    /// `face_glyph` finds a glyph (the face was parsed from `font_view()`).
    #[verifier::external_body]
    pub fn covers(&self, c: char) -> (b: bool)
        ensures
            b == face_glyph(self.font_view(), c) is Some,
    {
        self.face.glyph_index(c).is_some()
    }
}

/// Parses face 0 with `ttf_parser::Face::parse`. Claimed: it succeeds
/// exactly when `face_parses(font)`, and the coverage remembers `font`.
#[verifier::external_body]
fn open_face<'a>(font: &'a [u8]) -> (r: Option<Coverage<'a>>)
    ensures
        r is Some == face_parses(font@),
        r matches Some(c) ==> c.font_view() == font@,
{
    let face = ttf_parser::Face::parse(font, 0).ok()?;
    Some(Coverage { face, font })
}

/// The characters `font_data` has glyphs for, used to split runs so that
/// uncovered characters (emoji) get their own explicitly-positioned run
/// and fallback-font advance drift cannot shift later columns.
pub fn coverage<'a>(font_data: &'a [u8]) -> (r: Result<Coverage<'a>, FontError>)
    ensures
        r is Ok == face_parses(font_data@),
        r matches Ok(c) ==> c.font_view() == font_data@,
        r matches Err(e) ==> e is Parse,
{
    match open_face(font_data) {
        Some(c) => Ok(c),
        None => Err(FontError::Parse),
    }
}

} // verus!
