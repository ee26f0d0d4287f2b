//! Characters and strings: kana ranges, ASCII letters, and conversions between
//! strings and vectors of characters.
use vstd::prelude::*;

verus! {

/// `String::push` appends one character.
pub assume_specification[ String::push ](s: &mut String, c: char)
    ensures
        final(s)@ == old(s)@.push(c),
;

/// The code points that `char` can hold.
pub open spec fn is_scalar_value(n: int) -> bool {
    0 <= n < 0xD800 || 0xE000 <= n <= 0x10FFFF
}

/// `char::from_u32` gives the character with the code point `i`, and `None` for
/// the surrogates and for what lies beyond U+10FFFF.
pub assume_specification[ char::from_u32 ](i: u32) -> (r: Option<char>)
    ensures
        r == if is_scalar_value(i as int) {
            Some(i as char)
        } else {
            None
        },
;

/// The characters of `s`, in order.
pub fn chars_of(s: &str) -> (v: Vec<char>)
    ensures
        v@ == s@,
{
    let mut v: Vec<char> = Vec::new();
    for c in it: s.chars()
        invariant
            it.seq() == s@,
            v@ == s@.take(it.index() as int),
    {
        v.push(c);
    }
    v
}

/// The string whose characters are those of `v`.
pub fn text_of(v: &[char]) -> (s: String)
    ensures
        s@ == v@,
{
    let mut s = String::new();
    let mut i: usize = 0;
    while i < v.len()
        invariant
            i <= v.len(),
            s@ == v@.take(i as int),
        decreases v.len() - i,
    {
        s.push(v[i]);
        i += 1;
    }
    s
}

/// The number of characters of `s`.
pub fn char_count(s: &str) -> (n: usize)
    ensures
        n == s@.len(),
{
    chars_of(s).len()
}

/// Whether the two texts are the same.
pub fn same_text(a: &str, b: &str) -> (r: bool)
    ensures
        r == (a@ == b@),
{
    a.to_owned() == b.to_owned()
}

/// Whether `text` starts with `prefix`.
pub open spec fn starts_with(text: Seq<char>, prefix: Seq<char>) -> bool {
    prefix.len() <= text.len() && text.take(prefix.len() as int) == prefix
}

pub fn has_prefix(text: &str, prefix: &str) -> (r: bool)
    ensures
        r == starts_with(text@, prefix@),
{
    let t = chars_of(text);
    let p = chars_of(prefix);
    if p.len() > t.len() {
        return false;
    }
    let mut i: usize = 0;
    while i < p.len()
        invariant
            i <= p.len() <= t.len(),
            t@ == text@,
            p@ == prefix@,
            t@.take(i as int) == p@.take(i as int),
        decreases p.len() - i,
    {
        if t[i] != p[i] {
            assert(text@.take(p.len() as int)[i as int] != prefix@[i as int]);
            return false;
        }
        i += 1;
        assert(t@.take(i as int) =~= t@.take(i - 1).push(t@[i - 1]));
        assert(p@.take(i as int) =~= p@.take(i - 1).push(p@[i - 1]));
    }
    assert(p@.take(p.len() as int) =~= p@);
    true
}

/// An ASCII letter `a`-`z`.
pub open spec fn is_ascii_lower(c: char) -> bool {
    'a' <= c && c <= 'z'
}

/// An ASCII letter `A`-`Z`.
pub open spec fn is_ascii_upper(c: char) -> bool {
    'A' <= c && c <= 'Z'
}

/// An ASCII letter of either case.
pub open spec fn is_ascii_letter(c: char) -> bool {
    is_ascii_lower(c) || is_ascii_upper(c)
}

pub fn ascii_lower(c: char) -> (b: bool)
    ensures
        b == is_ascii_lower(c),
{
    'a' <= c && c <= 'z'
}

pub fn ascii_letter(c: char) -> (b: bool)
    ensures
        b == is_ascii_letter(c),
{
    ('a' <= c && c <= 'z') || ('A' <= c && c <= 'Z')
}

/// The text contains an ASCII letter.
pub open spec fn has_ascii_letter(s: Seq<char>) -> bool {
    exists|i: int| 0 <= i < s.len() && is_ascii_letter(#[trigger] s[i])
}

pub fn contains_ascii_letter(s: &str) -> (r: bool)
    ensures
        r == has_ascii_letter(s@),
{
    let v = chars_of(s);
    let mut i: usize = 0;
    while i < v.len()
        invariant
            i <= v.len(),
            v@ == s@,
            forall|j: int| 0 <= j < i ==> !is_ascii_letter(#[trigger] s@[j]),
        decreases v.len() - i,
    {
        if ascii_letter(v[i]) {
            assert(is_ascii_letter(s@[i as int]));
            return true;
        }
        i += 1;
    }
    false
}

/// An ASCII character, U+0000 to U+007F.
pub open spec fn is_ascii(c: char) -> bool {
    c <= '\u{7F}'
}

/// The text contains an ASCII character.
pub open spec fn has_ascii(s: Seq<char>) -> bool {
    exists|i: int| 0 <= i < s.len() && is_ascii(#[trigger] s[i])
}

pub fn contains_ascii(s: &str) -> (r: bool)
    ensures
        r == has_ascii(s@),
{
    let v = chars_of(s);
    let mut i: usize = 0;
    while i < v.len()
        invariant
            i <= v.len(),
            v@ == s@,
            forall|j: int| 0 <= j < i ==> !is_ascii(#[trigger] s@[j]),
        decreases v.len() - i,
    {
        if v[i] <= '\u{7F}' {
            assert(is_ascii(s@[i as int]));
            return true;
        }
        i += 1;
    }
    false
}

/// U+3041 to U+309F.
pub open spec fn is_hiragana(c: char) -> bool {
    '\u{3041}' <= c && c <= '\u{309F}'
}

/// U+30A0 to U+30FF, which includes the long vowel mark U+30FC.
pub open spec fn is_full_katakana(c: char) -> bool {
    '\u{30A0}' <= c && c <= '\u{30FF}'
}

/// U+FF66 to U+FF9F: the half-width forms, with their sound marks.
pub open spec fn is_half_katakana(c: char) -> bool {
    '\u{FF66}' <= c && c <= '\u{FF9F}'
}

/// Hiragana or full-width katakana.
pub open spec fn spec_is_kana(c: char) -> bool {
    is_hiragana(c) || is_full_katakana(c)
}

/// Whether `c` is hiragana or full-width katakana.
#[verifier::when_used_as_spec(spec_is_kana)]
pub fn is_kana(c: char) -> (b: bool)
    ensures
        b == is_kana(c),
{
    ('\u{3041}' <= c && c <= '\u{309F}') || ('\u{30A0}' <= c && c <= '\u{30FF}')
}

/// The text contains kana.
pub open spec fn has_kana(s: Seq<char>) -> bool {
    exists|i: int| 0 <= i < s.len() && is_kana(#[trigger] s[i])
}

/// Whether the text contains a hiragana or a full-width katakana.
pub fn contains_kana(s: &str) -> (r: bool)
    ensures
        r == has_kana(s@),
{
    let v = chars_of(s);
    let mut i: usize = 0;
    while i < v.len()
        invariant
            i <= v.len(),
            v@ == s@,
            forall|j: int| 0 <= j < i ==> !is_kana(#[trigger] s@[j]),
        decreases v.len() - i,
    {
        if is_kana(v[i]) {
            assert(is_kana(s@[i as int]));
            return true;
        }
        i += 1;
    }
    false
}

/// The text is not empty and all of it is hiragana.
pub open spec fn pure_hiragana(s: Seq<char>) -> bool {
    s.len() > 0 && forall|i: int| 0 <= i < s.len() ==> is_hiragana(#[trigger] s[i])
}

/// The text is not empty and all of it is full-width katakana.
pub open spec fn pure_full_katakana(s: Seq<char>) -> bool {
    s.len() > 0 && forall|i: int| 0 <= i < s.len() ==> is_full_katakana(#[trigger] s[i])
}

/// The text is not empty and all of it is half-width katakana.
pub open spec fn pure_half_katakana(s: Seq<char>) -> bool {
    s.len() > 0 && forall|i: int| 0 <= i < s.len() ==> is_half_katakana(#[trigger] s[i])
}

/// The characters from `low` to `high` are all that a text that is not empty holds.
fn pure_range(s: &str, low: char, high: char) -> (r: bool)
    ensures
        r == (s@.len() > 0 && forall|i: int|
            0 <= i < s@.len() ==> low <= (#[trigger] s@[i]) && s@[i] <= high),
{
    let v = chars_of(s);
    let mut i: usize = 0;
    while i < v.len()
        invariant
            i <= v.len(),
            v@ == s@,
            forall|j: int| 0 <= j < i ==> low <= (#[trigger] s@[j]) && s@[j] <= high,
        decreases v.len() - i,
    {
        if v[i] < low || v[i] > high {
            assert(!(low <= s@[i as int] && s@[i as int] <= high));
            return false;
        }
        i += 1;
    }
    v.len() > 0
}

pub fn is_pure_hiragana(s: &str) -> (r: bool)
    ensures
        r == pure_hiragana(s@),
{
    pure_range(s, '\u{3041}', '\u{309F}')
}

pub fn is_pure_full_katakana(s: &str) -> (r: bool)
    ensures
        r == pure_full_katakana(s@),
{
    pure_range(s, '\u{30A0}', '\u{30FF}')
}

pub fn is_pure_half_katakana(s: &str) -> (r: bool)
    ensures
        r == pure_half_katakana(s@),
{
    pure_range(s, '\u{FF66}', '\u{FF9F}')
}

/// The hiragana that have a katakana counterpart: U+3041 to U+3096, and the
/// iteration marks U+309D and U+309E.
pub open spec fn has_katakana(c: char) -> bool {
    ('\u{3041}' <= c && c <= '\u{3096}') || c == '\u{309D}' || c == '\u{309E}'
}

/// The katakana counterpart of a hiragana; any other character itself.
pub open spec fn katakana_char(c: char) -> char {
    if has_katakana(c) {
        (c as u32 + 0x60) as char
    } else {
        c
    }
}

/// The text with each hiragana replaced by its katakana counterpart.
pub open spec fn katakana(s: Seq<char>) -> Seq<char> {
    s.map_values(|c: char| katakana_char(c))
}

fn to_katakana_char(c: char) -> (r: char)
    ensures
        r == katakana_char(c),
{
    if ('\u{3041}' <= c && c <= '\u{3096}') || c == '\u{309D}' || c == '\u{309E}' {
        match char::from_u32(c as u32 + 0x60) {
            Some(k) => k,
            None => c,
        }
    } else {
        c
    }
}

/// Replaces each hiragana by its katakana counterpart and keeps the rest.
pub fn hiragana_to_katakana(s: &str) -> (r: String)
    ensures
        r@ == katakana(s@),
{
    let v = chars_of(s);
    let mut r = String::new();
    let mut i: usize = 0;
    while i < v.len()
        invariant
            i <= v.len(),
            v@ == s@,
            r@ == katakana(s@.take(i as int)),
        decreases v.len() - i,
    {
        r.push(to_katakana_char(v[i]));
        i += 1;
    }
    assert(s@.take(v.len() as int) =~= s@);
    r
}

/// Converting to katakana a second time changes nothing.
pub proof fn law_katakana_idempotent(s: Seq<char>)
    ensures
        katakana(katakana(s)) == katakana(s),
        katakana(s).len() == s.len(),
{
}

/// A pure hiragana text whose characters all have counterparts becomes pure
/// full-width katakana.
pub proof fn law_katakana_of_hiragana(s: Seq<char>)
    requires
        s.len() > 0,
        forall|i: int| 0 <= i < s.len() ==> has_katakana(#[trigger] s[i]),
    ensures
        pure_full_katakana(katakana(s)),
{
}

/// A hiragana from `ぁ` to `ゖ`, `ゝ` or `ゞ` becomes the katakana 96 code points further on,
/// and every other character stays.
pub proof fn law_katakana(s: Seq<char>, i: int)
    requires
        0 <= i < s.len(),
    ensures
        katakana(s)[i] as int == if ('ぁ' <= s[i] && s[i] <= 'ゖ') || s[i] == 'ゝ' || s[i] == 'ゞ' {
            s[i] as int + 96
        } else {
            s[i] as int
        },
{
}

/// The decimal digits of `n`.
pub open spec fn decimal(n: nat) -> Seq<char>
    decreases n,
{
    let digit = (('0' as u32 + n % 10) as u32) as char;
    if n < 10 {
        seq![digit]
    } else {
        decimal(n / 10).push(digit)
    }
}

/// Writes a number in decimal.
pub fn to_decimal(n: usize) -> (r: String)
    ensures
        r@ == decimal(n as nat),
    decreases n,
{
    let digit = match char::from_u32('0' as u32 + (n % 10) as u32) {
        Some(c) => c,
        None => '0',
    };
    let mut r = if n < 10 {
        String::new()
    } else {
        to_decimal(n / 10)
    };
    r.push(digit);
    assert(n < 10 ==> r@ =~= seq![digit]);
    r
}

} // verus!
