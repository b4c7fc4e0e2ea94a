//! Character-sequence helpers shared by the parsers and writers.
use vstd::prelude::*;

verus! {

/// Appends one character to a string.
#[verifier::external_body]
pub(crate) fn push_char(s: &mut String, c: char)
    ensures
        final(s)@ == old(s)@.push(c),
{
    s.push(c);
}

/// The characters of `s`, in order.
pub fn to_chars(s: &str) -> (v: Vec<char>)
    ensures
        v@ == s@,
{
    let mut v: Vec<char> = Vec::new();
    for c in it: s.chars()
        invariant
            v@ == it.seq().take(it.index() as int),
            it.seq() == s@,
    {
        v.push(c);
    }
    v
}

} // verus!

verus! {

/// The string holding exactly the characters of `v`.
pub fn string_from_chars(v: &[char]) -> (s: String)
    ensures
        s@ == v@,
{
    let mut s = String::new();
    let mut i: usize = 0;
    while i < v.len()
        invariant
            i <= v@.len(),
            s@ == v@.take(i as int),
        decreases v@.len() - i,
    {
        push_char(&mut s, v[i]);
        i += 1;
        assert(s@ =~= v@.take(i as int));
    }
    assert(v@.take(v@.len() as int) =~= v@);
    s
}

/// Number of bytes in the UTF-8 encoding of `c`.
pub open spec fn char_utf8_len(c: char) -> nat {
    if (c as u32) < 0x80 {
        1
    } else if (c as u32) < 0x800 {
        2
    } else if (c as u32) < 0x10000 {
        3
    } else {
        4
    }
}

/// Number of bytes in the UTF-8 encoding of `s`.
pub open spec fn utf8_len(s: Seq<char>) -> nat
    decreases s.len(),
{
    if s.len() == 0 {
        0
    } else {
        utf8_len(s.drop_last()) + char_utf8_len(s.last())
    }
}

pub fn char_utf8_width(c: char) -> (n: usize)
    ensures
        n == char_utf8_len(c),
{
    let v = c as u32;
    if v < 0x80 {
        1
    } else if v < 0x800 {
        2
    } else if v < 0x10000 {
        3
    } else {
        4
    }
}

/// The value of a hexadecimal digit, in either case.
pub open spec fn hex_value(c: char) -> Option<nat> {
    if '0' <= c && c <= '9' {
        Some((c as u32 - '0' as u32) as nat)
    } else if 'a' <= c && c <= 'f' {
        Some((c as u32 - 'a' as u32 + 10) as nat)
    } else if 'A' <= c && c <= 'F' {
        Some((c as u32 - 'A' as u32 + 10) as nat)
    } else {
        None
    }
}

pub fn hex_digit_value(c: char) -> (r: Option<u32>)
    ensures
        r matches Some(v) ==> hex_value(c) == Some(v as nat),
        r is None ==> hex_value(c) is None,
{
    if '0' <= c && c <= '9' {
        Some(c as u32 - '0' as u32)
    } else if 'a' <= c && c <= 'f' {
        Some(c as u32 - 'a' as u32 + 10)
    } else if 'A' <= c && c <= 'F' {
        Some(c as u32 - 'A' as u32 + 10)
    } else {
        None
    }
}

/// Every character is a hexadecimal digit.
pub open spec fn all_hex(s: Seq<char>) -> bool {
    forall|i: int| 0 <= i < s.len() ==> (#[trigger] hex_value(s[i])) is Some
}

/// The number that the hexadecimal digits `s` spell, most significant first.
pub open spec fn hex_number(s: Seq<char>) -> nat
    decreases s.len(),
{
    if s.len() == 0 {
        0
    } else {
        hex_number(s.drop_last()) * 16 + hex_value(s.last()).unwrap_or(0)
    }
}

/// The lowercase hexadecimal digit for `n`.
pub open spec fn hex_digit_char(n: nat) -> char {
    if n < 10 {
        (('0' as u32) + n) as char
    } else {
        (('a' as u32) + n - 10) as char
    }
}

pub fn hex_digit(n: u8) -> (c: char)
    requires
        n < 16,
    ensures
        c == hex_digit_char(n as nat),
{
    if n < 10 {
        (48u8 + n) as char
    } else {
        (87u8 + n) as char
    }
}

} // verus!

verus! {

pub proof fn lemma_utf8_len_at_least_len(s: Seq<char>)
    ensures
        utf8_len(s) >= s.len(),
    decreases s.len(),
{
    if s.len() > 0 {
        lemma_utf8_len_at_least_len(s.drop_last());
    }
}

pub proof fn lemma_utf8_len_append(a: Seq<char>, b: Seq<char>)
    ensures
        utf8_len(a + b) == utf8_len(a) + utf8_len(b),
    decreases b.len(),
{
    if b.len() == 0 {
        assert(a + b =~= a);
    } else {
        lemma_utf8_len_append(a, b.drop_last());
        assert((a + b).drop_last() =~= a + b.drop_last());
    }
}

} // verus!

verus! {

/// The value of a decimal digit.
pub open spec fn digit_value(c: char) -> Option<nat> {
    if '0' <= c && c <= '9' {
        Some((c as u32 - '0' as u32) as nat)
    } else {
        None
    }
}

pub open spec fn all_digits(s: Seq<char>) -> bool {
    forall|i: int| 0 <= i < s.len() ==> (#[trigger] digit_value(s[i])) is Some
}

/// The number the decimal digits `s` spell, most significant first.
pub open spec fn decimal_value(s: Seq<char>) -> nat
    decreases s.len(),
{
    if s.len() == 0 {
        0
    } else {
        decimal_value(s.drop_last()) * 10 + digit_value(s.last()).unwrap_or(0)
    }
}

/// The standard reading of a `usize` from text: an optional leading `+`,
/// then at least one decimal digit, with a value that fits.
pub open spec fn parse_usize_spec(s: Seq<char>) -> Option<usize> {
    let d = if s.len() > 1 && s[0] == '+' {
        s.drop_first()
    } else {
        s
    };
    if d.len() > 0 && all_digits(d) && decimal_value(d) <= usize::MAX {
        Some(decimal_value(d) as usize)
    } else {
        None
    }
}

pub fn parse_usize(s: &[char]) -> (r: Option<usize>)
    ensures
        r == parse_usize_spec(s@),
{
    let start: usize = if s.len() > 1 && s[0] == '+' {
        1
    } else {
        0
    };
    let ghost d = if s@.len() > 1 && s@[0] == '+' {
        s@.drop_first()
    } else {
        s@
    };
    assert(d =~= s@.skip(start as int));
    if start == s.len() {
        return None;
    }
    let mut v: usize = 0;
    let mut i: usize = start;
    while i < s.len()
        invariant
            start <= i <= s@.len(),
            d == s@.skip(start as int),
            d == (if s@.len() > 1 && s@[0] == '+' {
                s@.drop_first()
            } else {
                s@
            }),
            all_digits(d.take(i - start)),
            v as nat == decimal_value(d.take(i - start)),
        decreases s@.len() - i,
    {
        let ghost k = (i - start) as int;
        let c = s[i];
        assert(d[k] == c);
        assert(d.take(k + 1).drop_last() =~= d.take(k));
        assert(d.take(k + 1).last() == c);
        if c < '0' || c > '9' {
            assert(digit_value(d[k]) is None);
            assert(!all_digits(d));
            assert(parse_usize_spec(s@) is None);
            return None;
        }
        let digit = (c as u32 - '0' as u32) as usize;
        assert(decimal_value(d.take(k + 1)) == v as nat * 10 + digit as nat);
        assert(all_digits(d.take(k + 1))) by {
            assert forall|j: int| 0 <= j < k + 1 implies (#[trigger] digit_value(
                d.take(k + 1)[j],
            )) is Some by {
                if j < k {
                    assert(d.take(k + 1)[j] == d.take(k)[j]);
                }
            }
        }
        match v.checked_mul(10) {
            Some(t) => match t.checked_add(digit) {
                Some(u) => v = u,
                None => {
                    proof {
                        lemma_decimal_prefix_le(d, k + 1);
                    }
                    return None;
                },
            },
            None => {
                proof {
                    lemma_decimal_prefix_le(d, k + 1);
                }
                return None;
            },
        }
        i += 1;
    }
    assert(d.take(i - start) =~= d);
    Some(v)
}

proof fn lemma_decimal_prefix_le(d: Seq<char>, k: int)
    requires
        0 <= k <= d.len(),
        all_digits(d.take(k)),
    ensures
        all_digits(d) ==> decimal_value(d.take(k)) <= decimal_value(d),
    decreases d.len() - k,
{
    if k < d.len() && all_digits(d) {
        assert(all_digits(d.take(k + 1))) by {
            assert forall|j: int| 0 <= j < k + 1 implies (#[trigger] digit_value(
                d.take(k + 1)[j],
            )) is Some by {
                assert(d.take(k + 1)[j] == d[j]);
            }
        }
        lemma_decimal_prefix_le(d, k + 1);
        assert(d.take(k + 1).drop_last() =~= d.take(k));
    } else if k == d.len() {
        assert(d.take(k) =~= d);
    }
}

/// The decimal digit for `n`.
pub open spec fn digit_char(n: nat) -> char {
    (('0' as u32) + n) as char
}

/// `n` in decimal, without leading zeros.
pub open spec fn decimal(n: nat) -> Seq<char>
    decreases n,
{
    if n < 10 {
        seq![digit_char(n)]
    } else {
        decimal(n / 10).push(digit_char(n % 10))
    }
}

/// Appends `n` in decimal.
pub fn push_decimal(out: &mut String, n: usize)
    ensures
        final(out)@ == old(out)@ + decimal(n as nat),
    decreases n,
{
    if n >= 10 {
        push_decimal(out, n / 10);
    }
    let d = (n % 10) as u8;
    push_char(out, (48u8 + d) as char);
    assert(final(out)@ =~= old(out)@ + decimal(n as nat));
}

proof fn lemma_decimal_digits(n: nat)
    ensures
        all_digits(decimal(n)),
        decimal_value(decimal(n)) == n,
        decimal(n).len() > 0,
        decimal(n)[0] != '+',
    decreases n,
{
    assert(digit_value(digit_char(n % 10)) == Some(n % 10));
    if n >= 10 {
        lemma_decimal_digits(n / 10);
        let s = decimal(n);
        assert(s.drop_last() =~= decimal(n / 10));
        assert(s.last() == digit_char(n % 10));
        assert((n / 10) * 10 + n % 10 == n);
        assert(decimal_value(s) == decimal_value(decimal(n / 10)) * 10 + n % 10);
        assert forall|i: int| 0 <= i < s.len() implies (#[trigger] digit_value(s[i])) is Some by {
            if i < s.len() - 1 {
                assert(s[i] == decimal(n / 10)[i]);
            }
        }
    } else {
        assert(decimal(n).drop_last() =~= Seq::<char>::empty());
        assert(decimal_value(Seq::<char>::empty()) == 0);
    }
}

/// Reading back a written `usize` gives the same number.
pub proof fn parse_decimal_round_trip(n: usize)
    ensures
        parse_usize_spec(decimal(n as nat)) == Some(n),
{
    lemma_decimal_digits(n as nat);
}

/// Whether `a` and `b` hold the same characters.
pub fn str_eq(a: &str, b: &str) -> (r: bool)
    ensures
        r == (a@ == b@),
{
    let x = to_chars(a);
    let y = to_chars(b);
    assert(x@ == a@);
    assert(x@.len() == a@.len());
    if x.len() != y.len() {
        return false;
    }
    let mut i: usize = 0;
    while i < x.len()
        invariant
            i <= x@.len(),
            x@ == a@,
            y@ == b@,
            x@.len() == y@.len(),
            forall|j: int| 0 <= j < i ==> x@[j] == y@[j],
        decreases x@.len() - i,
    {
        if x[i] != y[i] {
            assert(x@[i as int] != y@[i as int]);
            assert(a@[i as int] != b@[i as int]);
            assert(a@ != b@);
            return false;
        }
        i += 1;
    }
    assert(x@ =~= y@);
    true
}

} // verus!

verus! {

/// Appends `t` to `s`.
pub(crate) fn push_str(s: &mut String, t: &str)
    ensures
        final(s)@ == old(s)@ + t@,
{
    s.append(t);
}

/// Whether `pat` occurs in `s` starting at index `i`.
pub open spec fn occurs_at(s: Seq<char>, pat: Seq<char>, i: int) -> bool {
    &&& 0 <= i
    &&& i + pat.len() <= s.len()
    &&& forall|j: int| 0 <= j < pat.len() ==> #[trigger] s[i + j] == pat[j]
}

/// Index of the first occurrence of `pat` in `s` at or after `from`.
#[verifier::opaque]
pub open spec fn find_from(s: Seq<char>, pat: Seq<char>, from: int) -> Option<int> {
    if exists|i: int| from <= i && occurs_at(s, pat, i) {
        Some(
            choose|i: int|
                from <= i && occurs_at(s, pat, i) && forall|j: int|
                    from <= j < i ==> !occurs_at(s, pat, j),
        )
    } else {
        None
    }
}

/// The first occurrence at or after `from` is at `at`.
pub proof fn lemma_find_first(s: Seq<char>, pat: Seq<char>, from: int, at: int)
    requires
        from <= at,
        occurs_at(s, pat, at),
        forall|j: int| from <= j < at ==> !occurs_at(s, pat, j),
    ensures
        find_from(s, pat, from) == Some(at),
{
    reveal(find_from);
    let w = choose|i: int|
        from <= i && occurs_at(s, pat, i) && forall|j: int| from <= j < i ==> !occurs_at(s, pat, j);
    assert(!(w < at));
    assert(!(at < w));
}

/// What a found occurrence is.
pub proof fn lemma_find_some(s: Seq<char>, pat: Seq<char>, from: int, at: int)
    requires
        find_from(s, pat, from) == Some(at),
    ensures
        from <= at,
        occurs_at(s, pat, at),
        at + pat.len() <= s.len(),
        forall|j: int| from <= j < at ==> !occurs_at(s, pat, j),
{
    reveal(find_from);
    let i = choose|i: int| from <= i && occurs_at(s, pat, i);
    lemma_first_exists(s, pat, from, i);
}

/// Some occurrence at or after `from` means a first one.
proof fn lemma_first_exists(s: Seq<char>, pat: Seq<char>, from: int, i: int)
    requires
        from <= i,
        occurs_at(s, pat, i),
    ensures
        exists|m: int|
            from <= m && occurs_at(s, pat, m) && forall|j: int| from <= j < m ==> !occurs_at(s, pat, j),
    decreases i - from,
{
    if exists|j: int| from <= j < i && occurs_at(s, pat, j) {
        let j = choose|j: int| from <= j < i && occurs_at(s, pat, j);
        lemma_first_exists(s, pat, from, j);
    } else {
        assert(forall|j: int| from <= j < i ==> !occurs_at(s, pat, j));
    }
}

/// A search that found nothing rules out every position.
pub proof fn lemma_find_never(s: Seq<char>, pat: Seq<char>, from: int, j: int)
    requires
        find_from(s, pat, from) is None,
        from <= j,
    ensures
        !occurs_at(s, pat, j),
{
    reveal(find_from);
}

/// No occurrence at or after `from`.
pub proof fn lemma_find_none(s: Seq<char>, pat: Seq<char>, from: int)
    requires
        forall|j: int| from <= j ==> !occurs_at(s, pat, j),
    ensures
        find_from(s, pat, from) is None,
{
    reveal(find_from);
}

fn occurs_here(s: &Vec<char>, pat: &Vec<char>, i: usize) -> (b: bool)
    requires
        i + pat@.len() <= s@.len(),
    ensures
        b == occurs_at(s@, pat@, i as int),
{
    let n = s.len();
    let mut j: usize = 0;
    while j < pat.len()
        invariant
            j <= pat@.len(),
            n == s@.len(),
            i + pat@.len() <= s@.len(),
            forall|k: int| 0 <= k < j ==> s@[i + k] == pat@[k],
        decreases pat@.len() - j,
    {
        if s[i + j] != pat[j] {
            assert(s@[i + j as int] != pat@[j as int]);
            return false;
        }
        j += 1;
    }
    true
}

/// Index of the first occurrence of `pat` in `s` at or after `from`.
pub fn find_chars(s: &Vec<char>, pat: &Vec<char>, from: usize) -> (r: Option<usize>)
    ensures
        r matches Some(i) ==> find_from(s@, pat@, from as int) == Some(i as int),
        r is None ==> find_from(s@, pat@, from as int) is None,
{
    if pat.len() > s.len() {
        proof {
            assert forall|j: int| from <= j implies !occurs_at(s@, pat@, j) by {}
            lemma_find_none(s@, pat@, from as int);
        }
        return None;
    }
    let last = s.len() - pat.len();
    let mut i: usize = from;
    while i <= last
        invariant
            from <= i,
            last + pat@.len() == s@.len(),
            forall|j: int| from <= j < i ==> !occurs_at(s@, pat@, j),
        decreases last + 1 - i,
    {
        if occurs_here(s, pat, i) {
            proof {
                lemma_find_first(s@, pat@, from as int, i as int);
            }
            return Some(i);
        }
        if i == last {
            proof {
                assert forall|j: int| from <= j implies !occurs_at(s@, pat@, j) by {
                    if j < i {
                    } else if j > last {
                    }
                }
                lemma_find_none(s@, pat@, from as int);
            }
            return None;
        }
        i += 1;
    }
    proof {
        assert forall|j: int| from <= j implies !occurs_at(s@, pat@, j) by {
            if j < i {
            } else {
                assert(j > last);
            }
        }
        lemma_find_none(s@, pat@, from as int);
    }
    None
}

} // verus!
