//! Colours and palettes: hex colours, the xterm 256-colour table, and the
//! colour set a theme supplies.
use vstd::prelude::*;

use crate::text::{
    all_hex, hex_digit, hex_digit_char, hex_digit_value, hex_number, hex_value, to_chars,
    char_utf8_width, lemma_utf8_len_at_least_len, utf8_len,
};

verus! {

/// A 24-bit colour.
#[derive(Debug, Clone, Copy, PartialEq, Eq, Structural)]
pub struct Rgb {
    pub r: u8,
    pub g: u8,
    pub b: u8,
}

/// Why a colour string was rejected.
#[derive(Debug, Clone, Copy, PartialEq, Eq, Structural)]
pub enum ColorError {
    /// Neither 6 nor 3 bytes after the optional `#`.
    BadLength,
    /// The right length, but not a hexadecimal number.
    InvalidHex,
}

/// `#rrggbb` in lowercase.
pub open spec fn hex_string(c: Rgb) -> Seq<char> {
    seq![
        '#',
        hex_digit_char((c.r / 16) as nat),
        hex_digit_char((c.r % 16) as nat),
        hex_digit_char((c.g / 16) as nat),
        hex_digit_char((c.g % 16) as nat),
        hex_digit_char((c.b / 16) as nat),
        hex_digit_char((c.b % 16) as nat),
    ]
}

/// The text after one leading `#`, if there is one.
pub open spec fn strip_hash(s: Seq<char>) -> Seq<char> {
    if s.len() > 0 && s[0] == '#' {
        s.drop_first()
    } else {
        s
    }
}

/// The number that `h` spells when it is one or more hexadecimal digits.
pub open spec fn radix16(h: Seq<char>) -> Option<nat> {
    if h.len() > 0 && all_hex(h) {
        Some(hex_number(h))
    } else {
        None
    }
}

/// Text a colour is read from: after one optional `#`, exactly three or
/// six hexadecimal digits.
pub open spec fn is_color_text(s: Seq<char>) -> bool {
    let h = strip_hash(s);
    (h.len() == 3 || h.len() == 6) && all_hex(h)
}

proof fn lemma_hex_utf8_len(s: Seq<char>)
    requires
        all_hex(s),
    ensures
        utf8_len(s) == s.len(),
    decreases s.len(),
{
    if s.len() > 0 {
        assert(all_hex(s.drop_last())) by {
            assert forall|i: int| 0 <= i < s.drop_last().len() implies (#[trigger] hex_value(
                s.drop_last()[i],
            )) is Some by {
                assert(s.drop_last()[i] == s[i]);
            }
        }
        lemma_hex_utf8_len(s.drop_last());
        assert(hex_value(s[s.len() - 1]) is Some);
    }
}

/// A colour parses exactly when its text is three or six hexadecimal
/// digits after one optional `#`.
proof fn lemma_parse_ok_iff(s: Seq<char>)
    ensures
        parse_color(s) is Ok <==> is_color_text(s),
{
    let h = strip_hash(s);
    if all_hex(h) {
        lemma_hex_utf8_len(h);
    }
}

/// The colour `#rrggbb` / `#rgb` (with or without `#`) denotes.
pub open spec fn parse_color(s: Seq<char>) -> Result<Rgb, ColorError> {
    let h = strip_hash(s);
    if utf8_len(h) == 6 {
        match radix16(h) {
            Some(n) => Ok(
                Rgb { r: (n / 65536) as u8, g: ((n / 256) % 256) as u8, b: (n % 256) as u8 },
            ),
            None => Err(ColorError::InvalidHex),
        }
    } else if utf8_len(h) == 3 {
        match radix16(h) {
            Some(n) => Ok(
                Rgb {
                    r: ((n / 256) % 16 * 17) as u8,
                    g: ((n / 16) % 16 * 17) as u8,
                    b: (n % 16 * 17) as u8,
                },
            ),
            None => Err(ColorError::InvalidHex),
        }
    } else {
        Err(ColorError::BadLength)
    }
}

proof fn lemma_hex_number_bound(s: Seq<char>)
    requires
        all_hex(s),
    ensures
        hex_number(s) < pow16(s.len()),
    decreases s.len(),
{
    if s.len() > 0 {
        assert(all_hex(s.drop_last())) by {
            assert forall|i: int| 0 <= i < s.drop_last().len() implies (#[trigger] hex_value(
                s.drop_last()[i],
            )) is Some by {
                assert(s.drop_last()[i] == s[i]);
            }
        }
        lemma_hex_number_bound(s.drop_last());
        assert(hex_value(s[s.len() - 1]) is Some);
        assert(hex_value(s.last()).unwrap() < 16);
    }
}

pub open spec fn pow16(n: nat) -> nat
    decreases n,
{
    if n == 0 {
        1
    } else {
        16 * pow16((n - 1) as nat)
    }
}

/// Reads `digits[from..]` as a hexadecimal number of at most six digits.
fn read_hex(digits: &Vec<char>, from: usize) -> (r: Option<u32>)
    requires
        from <= digits@.len(),
        digits@.len() - from <= 6,
    ensures
        r matches Some(n) ==> all_hex(digits@.skip(from as int)) && n as nat == hex_number(
            digits@.skip(from as int),
        ),
        r is None ==> !all_hex(digits@.skip(from as int)),
{
    let ghost d = digits@.skip(from as int);
    let mut n: u32 = 0;
    let mut i: usize = from;
    while i < digits.len()
        invariant
            from <= i <= digits@.len(),
            digits@.len() - from <= 6,
            d == digits@.skip(from as int),
            all_hex(d.take(i - from)),
            n as nat == hex_number(d.take(i - from)),
            n < pow16((i - from) as nat),
        decreases digits@.len() - i,
    {
        let ghost k = (i - from) as int;
        match hex_digit_value(digits[i]) {
            Some(v) => {
                assert(d[k] == digits@[i as int]);
                assert(pow16((k + 1) as nat) == 16 * pow16(k as nat));
                assert(pow16(5) == 1048576) by {
                    reveal_with_fuel(pow16, 6);
                }
                assert(pow16(k as nat) <= pow16(5)) by {
                    lemma_pow16_mono(k as nat, 5);
                }
                assert(v < 16);
                n = n * 16 + v;
                i += 1;
                assert(d.take(k + 1).drop_last() =~= d.take(k));
                assert(d.take(k + 1).last() == d[k]);
                assert(all_hex(d.take(k + 1))) by {
                    assert forall|j: int| 0 <= j < d.take(k + 1).len() implies (#[trigger] hex_value(
                        d.take(k + 1)[j],
                    )) is Some by {
                        if j < k {
                            assert(d.take(k + 1)[j] == d.take(k)[j]);
                        }
                    }
                }
            },
            None => {
                assert(d[k] == digits@[i as int]);
                assert(hex_value(d[k]) is None);
                return None;
            },
        }
    }
    assert(d.take(i - from) =~= d);
    Some(n)
}

proof fn lemma_pow16_mono(a: nat, b: nat)
    requires
        a <= b,
    ensures
        pow16(a) <= pow16(b),
    decreases b,
{
    if a < b {
        lemma_pow16_mono(a, (b - 1) as nat);
    }
}

impl Rgb {
    pub fn new(r: u8, g: u8, b: u8) -> (c: Rgb)
        ensures
            c == (Rgb { r, g, b }),
    {
        Rgb { r, g, b }
    }

    /// `#rrggbb`, lowercase.
    pub fn hex(&self) -> (s: String)
        ensures
            s@ == hex_string(*self),
    {
        let digits = [
            '#',
            hex_digit(self.r / 16),
            hex_digit(self.r % 16),
            hex_digit(self.g / 16),
            hex_digit(self.g % 16),
            hex_digit(self.b / 16),
            hex_digit(self.b % 16),
        ];
        let s = crate::text::string_from_chars(&digits);
        assert(s@ =~= hex_string(*self));
        s
    }

    /// Parses `#rrggbb` or `#rgb`; the `#` is optional. It succeeds
    /// exactly when three or six hexadecimal digits follow; otherwise a
    /// text whose length (in bytes) is neither 3 nor 6 is a `BadLength`,
    /// and one of the right length with a non-digit an `InvalidHex`.
    pub fn parse(s: &str) -> (r: Result<Rgb, ColorError>)
        ensures
            r == parse_color(s@),
            r is Ok <==> is_color_text(s@),
    {
        proof {
            lemma_parse_ok_iff(s@);
        }
        let all = to_chars(s);
        let start: usize = if all.len() > 0 && all[0] == '#' {
            1
        } else {
            0
        };
        let ghost h = strip_hash(s@);
        assert(h =~= all@.skip(start as int));
        // Byte length of the text after `#`, counted until it exceeds 6.
        let mut bytes: usize = 0;
        let mut i: usize = start;
        while i < all.len() && bytes <= 6
            invariant
                start <= i <= all@.len(),
                h == all@.skip(start as int),
                bytes as nat == utf8_len(h.take(i - start)),
                bytes <= 10,
            decreases all@.len() - i,
        {
            let ghost k = (i - start) as int;
            bytes = bytes + char_utf8_width(all[i]);
            i += 1;
            assert(h.take(k + 1).drop_last() =~= h.take(k));
            assert(h.take(k + 1).last() == all@[i - 1]);
        }
        proof {
            if i < all.len() {
                lemma_utf8_len_prefix_le(h, (i - start) as int);
            } else {
                assert(h.take(i - start) =~= h);
            }
        }
        if bytes != 6 && bytes != 3 {
            return Err(ColorError::BadLength);
        }
        assert(h.take(i - start) =~= h);
        assert(i == all.len());
        proof {
            lemma_utf8_len_at_least_len(h);
        }
        let from: usize = start;
        if from == all.len() {
            return Err(ColorError::InvalidHex);
        }
        let n = match read_hex(&all, from) {
            Some(n) => n,
            None => {
                return Err(ColorError::InvalidHex);
            },
        };
        proof {
            lemma_hex_number_bound(all@.skip(from as int));
            lemma_pow16_mono((all@.len() - from) as nat, 6);
            assert(pow16(6) == 16777216) by {
                reveal_with_fuel(pow16, 7);
            }
        }
        if bytes == 6 {
            Ok(Rgb::new((n / 65536) as u8, ((n / 256) % 256) as u8, (n % 256) as u8))
        } else {
            Ok(Rgb::new(((n / 256) % 16 * 17) as u8, ((n / 16) % 16 * 17) as u8, (n % 16 * 17) as u8))
        }
    }
}

proof fn lemma_utf8_len_prefix_le(s: Seq<char>, k: int)
    requires
        0 <= k <= s.len(),
    ensures
        utf8_len(s.take(k)) <= utf8_len(s),
    decreases s.len() - k,
{
    if k < s.len() {
        lemma_utf8_len_prefix_le(s, k + 1);
        assert(s.take(k + 1).drop_last() =~= s.take(k));
    } else {
        assert(s.take(k) =~= s);
    }
}

} // verus!

verus! {

/// A terminal colour as the emulator reports it: an index into the
/// 256-colour table, or a direct 24-bit colour.
#[derive(Debug, Clone, Copy, PartialEq, Eq, Structural)]
pub enum VtColor {
    Indexed(u8),
    Rgb(Rgb),
}

/// The xterm colour-cube channel level for cube coordinate `v` (0..5).
pub open spec fn cube_level(v: int) -> int {
    if v == 0 {
        0
    } else {
        55 + 40 * v
    }
}

/// The fixed part of the xterm 256-colour table: the 6×6×6 cube for
/// 16..=231 and the grayscale ramp for 232..=255. The same in every theme.
pub open spec fn xterm_color(i: int) -> Rgb {
    if i < 232 {
        let n = i - 16;
        Rgb {
            r: cube_level((n / 36) % 6) as u8,
            g: cube_level((n / 6) % 6) as u8,
            b: cube_level(n % 6) as u8,
        }
    } else {
        let v = (8 + 10 * (i - 232)) as u8;
        Rgb { r: v, g: v, b: v }
    }
}

fn level(v: u8) -> (l: u8)
    requires
        v < 6,
    ensures
        l as int == cube_level(v as int),
{
    if v == 0 {
        0
    } else {
        55 + 40 * v
    }
}

/// Colours 16..=255 of the xterm table.
pub fn xterm_indexed(i: u8) -> (c: Rgb)
    requires
        i >= 16,
    ensures
        c == xterm_color(i as int),
{
    if i <= 231 {
        let n = i - 16;
        Rgb::new(level(n / 36 % 6), level(n / 6 % 6), level(n % 6))
    } else {
        let v = 8 + 10 * (i - 232);
        Rgb::new(v, v, v)
    }
}

/// The colours a theme supplies: default foreground and background, the 16
/// ANSI colours, and the window chrome colours.
#[derive(Debug, Clone)]
pub struct Theme {
    pub name: String,
    pub foreground: Rgb,
    pub background: Rgb,
    pub palette: [Rgb; 16],
    pub title_fg: Rgb,
    pub lights: [Rgb; 3],
    /// Caption glyph color for the windows/ubuntu chrome styles.
    pub button_fg: Rgb,
    /// Button disc fill for the ubuntu chrome style.
    pub button_bg: Rgb,
    /// Title bar fill for the windows/ubuntu chrome styles; None uses the
    /// style's authentic OS default.
    pub bar_bg: Option<Rgb>,
    /// Title text/glyph color on that bar; None uses the style default.
    pub bar_fg: Option<Rgb>,
}

impl Theme {
    /// Entry `i` of the 256-colour table under this theme: the palette for
    /// 0..=15, the fixed xterm table above that.
    pub open spec fn indexed_color(&self, i: int) -> Rgb {
        if i < 16 {
            self.palette@[i]
        } else {
            xterm_color(i)
        }
    }

    pub open spec fn color_value(&self, color: VtColor) -> Rgb {
        match color {
            VtColor::Indexed(i) => self.indexed_color(i as int),
            VtColor::Rgb(c) => c,
        }
    }

    pub fn resolve(&self, color: VtColor) -> (c: Rgb)
        ensures
            c == self.color_value(color),
    {
        match color {
            VtColor::Indexed(i) => self.resolve_indexed(i),
            VtColor::Rgb(c) => c,
        }
    }

    pub fn resolve_indexed(&self, i: u8) -> (c: Rgb)
        ensures
            c == self.indexed_color(i as int),
    {
        if i < 16 {
            self.palette[i as usize]
        } else {
            xterm_indexed(i)
        }
    }
}

/// A theme decides only the sixteen ANSI colours: the colour cube, the
/// grayscale ramp and truecolour resolve the same under every theme, and
/// truecolour passes through untouched.
pub proof fn themes_decide_only_the_ansi_colors(a: Theme, b: Theme, color: VtColor)
    requires
        !(color matches VtColor::Indexed(i) && i < 16),
    ensures
        a.color_value(color) == b.color_value(color),
        color matches VtColor::Rgb(c) ==> a.color_value(color) == c,
{
}

/// The names of the built-in themes, in registry order.
pub open spec fn builtin_names() -> Seq<Seq<char>> {
    seq![
        "dracula"@,
        "catppuccin-mocha"@,
        "nord"@,
        "tokyo-night"@,
        "github-dark"@,
        "github-light"@,
        "solarized-dark"@,
        "powershell"@,
        "ubuntu"@,
    ]
}

/// The names of the built-in themes.
pub fn names() -> (r: Vec<&'static str>)
    ensures
        r@.map_values(|s: &str| s@) == builtin_names(),
{
    let r = vec![
        "dracula",
        "catppuccin-mocha",
        "nord",
        "tokyo-night",
        "github-dark",
        "github-light",
        "solarized-dark",
        "powershell",
        "ubuntu",
    ];
    assert(r@.map_values(|s: &str| s@) =~= builtin_names());
    r
}

} // verus!

verus! {

proof fn lemma_hex_digit_value(n: nat)
    requires
        n < 16,
    ensures
        hex_value(hex_digit_char(n)) == Some(n),
        crate::text::char_utf8_len(hex_digit_char(n)) == 1,
{
}

/// Writing a colour as `#rrggbb` and reading it back gives the colour.
pub proof fn hex_parse_round_trip(c: Rgb)
    ensures
        parse_color(hex_string(c)) == Ok::<Rgb, ColorError>(c),
{
    let s = hex_string(c);
    let v0 = (c.r / 16) as nat;
    let v1 = (c.r % 16) as nat;
    let v2 = (c.g / 16) as nat;
    let v3 = (c.g % 16) as nat;
    let v4 = (c.b / 16) as nat;
    let v5 = (c.b % 16) as nat;
    lemma_hex_digit_value(v0);
    lemma_hex_digit_value(v1);
    lemma_hex_digit_value(v2);
    lemma_hex_digit_value(v3);
    lemma_hex_digit_value(v4);
    lemma_hex_digit_value(v5);
    let h = strip_hash(s);
    assert(h =~= seq![
        hex_digit_char(v0),
        hex_digit_char(v1),
        hex_digit_char(v2),
        hex_digit_char(v3),
        hex_digit_char(v4),
        hex_digit_char(v5),
    ]);
    reveal_with_fuel(utf8_len, 7);
    assert(h.drop_last().drop_last().drop_last().drop_last().drop_last().drop_last().len() == 0);
    assert(utf8_len(h) == 6);
    assert(all_hex(h));
    reveal_with_fuel(hex_number, 7);
    let n = hex_number(h);
    assert(n == ((((v0 * 16 + v1) * 16 + v2) * 16 + v3) * 16 + v4) * 16 + v5);
    assert(v0 * 16 + v1 == c.r);
    assert(v2 * 16 + v3 == c.g);
    assert(v4 * 16 + v5 == c.b);
    assert(n == c.r * 65536 + c.g * 256 + c.b) by (nonlinear_arith)
        requires
            n == ((((v0 * 16 + v1) * 16 + v2) * 16 + v3) * 16 + v4) * 16 + v5,
            v0 * 16 + v1 == c.r,
            v2 * 16 + v3 == c.g,
            v4 * 16 + v5 == c.b,
    ;
    let r = c.r as int;
    let g = c.g as int;
    let b = c.b as int;
    assert(n / 65536 == r && (n / 256) % 256 == g && n % 256 == b) by (nonlinear_arith)
        requires
            n == r * 65536 + g * 256 + b,
            0 <= r < 256,
            0 <= g < 256,
            0 <= b < 256,
    ;
}

} // verus!

verus! {

/// Where `load` finds a theme.
#[derive(Debug, Clone, Copy, PartialEq, Eq, Structural)]
pub enum ThemeSource {
    /// The built-in theme at this index of the registry.
    Builtin(usize),
    /// A path to a custom .toml file.
    File,
    /// Neither: an unknown name.
    Unknown,
}

/// Anything with a `/` in it or ending in `.toml` is a file path.
pub open spec fn looks_like_path(s: Seq<char>) -> bool {
    (exists|i: int| 0 <= i < s.len() && s[i] == '/') || (s.len() >= 5 && s.skip(s.len() - 5)
        == ".toml"@)
}

fn is_path_like(s: &str) -> (b: bool)
    ensures
        b == looks_like_path(s@),
{
    let v = to_chars(s);
    let mut i: usize = 0;
    while i < v.len()
        invariant
            i <= v@.len(),
            v@ == s@,
            forall|j: int| 0 <= j < i ==> v@[j] != '/',
        decreases v@.len() - i,
    {
        if v[i] == '/' {
            return true;
        }
        i += 1;
    }
    let n = v.len();
    proof {
        reveal_strlit(".toml");
    }
    if n >= 5 && v[n - 5] == '.' && v[n - 4] == 't' && v[n - 3] == 'o' && v[n - 2] == 'm' && v[n - 1] == 'l' {
        assert(v@.skip(n - 5) =~= ".toml"@);
        true
    } else {
        proof {
            if n >= 5 {
                let t = v@.skip(n - 5);
                assert(t[0] == v@[n - 5]);
                assert(t[1] == v@[n - 4]);
                assert(t[2] == v@[n - 3]);
                assert(t[3] == v@[n - 2]);
                assert(t[4] == v@[n - 1]);
            }
        }
        false
    }
}

/// A built-in name selects that theme; otherwise a path-like argument is a
/// file to read; anything else is unknown.
pub fn theme_source(name_or_path: &str) -> (src: ThemeSource)
    ensures
        match src {
            ThemeSource::Builtin(i) => i < builtin_names().len() && builtin_names()[i as int]
                == name_or_path@,
            ThemeSource::File => (forall|i: int|
                0 <= i < builtin_names().len() ==> builtin_names()[i] != name_or_path@)
                && looks_like_path(name_or_path@),
            ThemeSource::Unknown => (forall|i: int|
                0 <= i < builtin_names().len() ==> builtin_names()[i] != name_or_path@)
                && !looks_like_path(name_or_path@),
        },
{
    let all = names();
    let mut i: usize = 0;
    while i < all.len()
        invariant
            i <= all@.len(),
            all@.map_values(|s: &str| s@) == builtin_names(),
            forall|j: int| 0 <= j < i ==> builtin_names()[j] != name_or_path@,
        decreases all@.len() - i,
    {
        assert(builtin_names()[i as int] == all@[i as int]@);
        if crate::text::str_eq(all[i], name_or_path) {
            return ThemeSource::Builtin(i);
        }
        i += 1;
    }
    if is_path_like(name_or_path) {
        ThemeSource::File
    } else {
        ThemeSource::Unknown
    }
}

/// A theme as the editor lists it: its name and colours as `#rrggbb`.
#[derive(Debug, Clone)]
pub struct ThemeInfo {
    pub name: String,
    pub bg: String,
    pub fg: String,
    pub palette: Vec<String>,
}

/// Whether `info` describes `theme` under `name`.
pub open spec fn describes(info: ThemeInfo, name: Seq<char>, theme: Theme) -> bool {
    &&& info.name@ == name
    &&& info.bg@ == hex_string(theme.background)
    &&& info.fg@ == hex_string(theme.foreground)
    &&& info.palette@.len() == 16
    &&& forall|k: int| 0 <= k < 16 ==> #[trigger] info.palette@[k]@ == hex_string(theme.palette@[k])
}

/// One theme's entry in the editor's theme list.
pub fn theme_info(name: &str, theme: &Theme) -> (info: ThemeInfo)
    ensures
        describes(info, name@, *theme),
{
    let mut palette: Vec<String> = Vec::new();
    let mut k: usize = 0;
    while k < 16
        invariant
            k <= 16,
            palette@.len() == k,
            forall|j: int| 0 <= j < k ==> #[trigger] palette@[j]@ == hex_string(theme.palette@[j]),
        decreases 16 - k,
    {
        palette.push(theme.palette[k].hex());
        k += 1;
    }
    ThemeInfo {
        name: name.to_string(),
        bg: theme.background.hex(),
        fg: theme.foreground.hex(),
        palette,
    }
}

/// Which built-in themes made it into the list: the indices of the loaded
/// ones, in registry order.
pub open spec fn loaded_indices(loaded: Seq<Option<Theme>>) -> Seq<int>
    decreases loaded.len(),
{
    if loaded.len() == 0 {
        seq![]
    } else {
        loaded_indices(loaded.drop_last()) + if loaded.last() is Some {
            seq![loaded.len() - 1]
        } else {
            seq![]
        }
    }
}

/// `info` lists the built-in theme at index `j`, which loaded.
pub open spec fn lists(info: ThemeInfo, loaded: Seq<Option<Theme>>, j: int) -> bool {
    &&& 0 <= j < loaded.len()
    &&& loaded[j] is Some
    &&& describes(info, builtin_names()[j], loaded[j]->0)
}

/// The editor's theme list: every built-in theme that loaded, in registry
/// order (`loaded[i]` is the built-in theme `names()[i]`, `None` when it
/// failed to load).
pub fn theme_infos(loaded: &Vec<Option<Theme>>) -> (infos: Vec<ThemeInfo>)
    requires
        loaded@.len() == builtin_names().len(),
    ensures
        infos@.len() == loaded_indices(loaded@).len(),
        forall|k: int|
            0 <= k < infos@.len() ==> lists(#[trigger] infos@[k], loaded@, loaded_indices(loaded@)[k]),
{
    let all = names();
    let mut infos: Vec<ThemeInfo> = Vec::new();
    let mut i: usize = 0;
    while i < loaded.len()
        invariant
            i <= loaded@.len(),
            loaded@.len() == builtin_names().len(),
            all@.map_values(|s: &str| s@) == builtin_names(),
            infos@.len() == loaded_indices(loaded@.take(i as int)).len(),
            forall|k: int|
                0 <= k < infos@.len() ==> lists(
                    #[trigger] infos@[k],
                    loaded@,
                    loaded_indices(loaded@.take(i as int))[k],
                ),
        decreases loaded@.len() - i,
    {
        proof {
            assert(loaded@.take(i + 1).drop_last() =~= loaded@.take(i as int));
            assert(loaded@.take(i + 1).last() == loaded@[i as int]);
        }
        let ghost before = loaded_indices(loaded@.take(i as int));
        match &loaded[i] {
            Some(t) => {
                assert(builtin_names()[i as int] == all@[i as int]@);
                let info = theme_info(all[i], t);
                let ghost old_infos = infos@;
                infos.push(info);
                assert(loaded_indices(loaded@.take(i + 1)) =~= before + seq![i as int]);
                assert forall|k: int| 0 <= k < infos@.len() implies lists(
                    #[trigger] infos@[k],
                    loaded@,
                    loaded_indices(loaded@.take(i + 1))[k],
                ) by {
                    if k < old_infos.len() {
                        assert(infos@[k] == old_infos[k]);
                        assert(loaded_indices(loaded@.take(i + 1))[k] == before[k]);
                    } else {
                        assert(loaded_indices(loaded@.take(i + 1))[k] == i);
                        assert(loaded@[i as int] == Some(*t));
                    }
                }
            },
            None => {
                assert(loaded_indices(loaded@.take(i + 1)) =~= before);
            },
        }
        i += 1;
    }
    assert(loaded@.take(i as int) =~= loaded@);
    infos
}

} // verus!
