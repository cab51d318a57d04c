//! Conversions between strings and character vectors, and the few character
//! classes that the rest of the library reads.

use vstd::prelude::*;

verus! {

/// The characters of `s`, in order.
pub fn chars_of(s: &str) -> (r: Vec<char>)
    ensures
        r@ == s@,
{
    let mut r: Vec<char> = Vec::new();
    for c in it: s.chars()
        invariant
            r@ == it.seq().take(it.index() as int),
            it.seq() == s@,
    {
        r.push(c);
    }
    r
}

/// A string holding exactly `chars`.
pub fn string_from(chars: &[char]) -> (r: String)
    ensures
        r@ == chars@,
{
    string_from_iter(chars)
}

/// `String::from_iter` over the characters of a slice.
#[verifier::external_body]
fn string_from_iter(chars: &[char]) -> (r: String)
    ensures
        r@ == chars@,
{
    String::from_iter(chars.iter())
}

/// The views of a sequence of strings.
pub open spec fn views(v: Seq<String>) -> Seq<Seq<char>> {
    v.map_values(|t: String| t@)
}

/// What `char::is_alphanumeric` answers for a character beyond ASCII (the
/// Unicode Alphabetic or Numeric property).
pub uninterp spec fn unicode_alphanumeric(c: char) -> bool;

/// What `char::is_alphanumeric` answers for `c`: within ASCII, where the
/// Alphabetic and Numeric properties hold of the letters and the digits alone,
/// exactly those; beyond it, the Unicode properties.
pub open spec fn alphanumeric(c: char) -> bool {
    if (c as int) < 0x80 {
        ascii_alphanumeric(c)
    } else {
        unicode_alphanumeric(c)
    }
}

/// `char::is_alphanumeric`: an ASCII character is alphanumeric exactly when it
/// is a letter or a digit.
#[verifier::external_body]
pub(crate) fn is_alphanumeric(c: char) -> (r: bool)
    ensures
        r == alphanumeric(c),
        (c as int) < 0x80 ==> r == ascii_alphanumeric(c),
        (c as int) >= 0x80 ==> r == unicode_alphanumeric(c),
{
    c.is_alphanumeric()
}

/// The Unicode White_Space property, as `char::is_whitespace` documents it:
/// the code points that PropList.txt lists as White_Space.
pub open spec fn whitespace(c: char) -> bool {
    ||| ('\u{9}' <= c && c <= '\u{d}')
    ||| c == ' '
    ||| c == '\u{85}'
    ||| c == '\u{a0}'
    ||| c == '\u{1680}'
    ||| ('\u{2000}' <= c && c <= '\u{200a}')
    ||| c == '\u{2028}'
    ||| c == '\u{2029}'
    ||| c == '\u{202f}'
    ||| c == '\u{205f}'
    ||| c == '\u{3000}'
}

/// Whether `c` is one of the White_Space code points, as `char::is_whitespace`
/// answers.
pub(crate) fn is_whitespace(c: char) -> (r: bool)
    ensures
        r == whitespace(c),
{
    ('\u{9}' <= c && c <= '\u{d}') || c == ' ' || c == '\u{85}' || c == '\u{a0}' || c == '\u{1680}'
        || ('\u{2000}' <= c && c <= '\u{200a}') || c == '\u{2028}' || c == '\u{2029}' || c
        == '\u{202f}' || c == '\u{205f}' || c == '\u{3000}'
}

/// What `str::to_lowercase` gives for a string holding `s` (full Unicode
/// lowercasing, context-sensitive for a final sigma).
pub uninterp spec fn lowercase(s: Seq<char>) -> Seq<char>;

/// `str::to_lowercase`.
#[verifier::external_body]
pub(crate) fn to_lowercase(s: &str) -> (r: String)
    ensures
        r@ == lowercase(s@),
{
    s.to_lowercase()
}

/// ASCII decimal digit.
pub open spec fn ascii_digit(c: char) -> bool {
    '0' <= c && c <= '9'
}

/// ASCII letter or digit.
pub open spec fn ascii_alphanumeric(c: char) -> bool {
    ascii_digit(c) || ('a' <= c && c <= 'z') || ('A' <= c && c <= 'Z')
}

/// The ASCII lowercase form of `c`; anything else is unchanged.
pub open spec fn ascii_lower(c: char) -> int {
    if 'A' <= c && c <= 'Z' {
        c as int + 32
    } else {
        c as int
    }
}

pub fn is_ascii_digit(c: char) -> (r: bool)
    ensures
        r == ascii_digit(c),
{
    '0' <= c && c <= '9'
}

pub fn is_ascii_alphanumeric(c: char) -> (r: bool)
    ensures
        r == ascii_alphanumeric(c),
{
    ('0' <= c && c <= '9') || ('a' <= c && c <= 'z') || ('A' <= c && c <= 'Z')
}

/// Equal once ASCII letters are lowercased.
pub fn eq_ignore_ascii_case(a: char, b: char) -> (r: bool)
    ensures
        r == (ascii_lower(a) == ascii_lower(b)),
{
    let x: u32 = a as u32;
    let y: u32 = b as u32;
    let lx: u32 = if 65 <= x && x <= 90 { x + 32 } else { x };
    let ly: u32 = if 65 <= y && y <= 90 { y + 32 } else { y };
    lx == ly
}

/// `a` followed by `b`.
pub fn concat(a: &str, b: &str) -> (r: String)
    ensures
        r@ == a@ + b@,
{
    let mut out = chars_of(a);
    let tail = chars_of(b);
    let ghost head = out@;
    let mut index: usize = 0;
    while index < tail.len()
        invariant
            index <= tail.len(),
            out@ == head + tail@.take(index as int),
        decreases tail.len() - index,
    {
        out.push(tail[index]);
        index += 1;
        assert(head + tail@.take(index as int) =~= (head + tail@.take(index - 1)).push(tail@[index - 1]));
    }
    assert(tail@.take(index as int) =~= tail@);
    string_from(out.as_slice())
}

/// The columns `UnicodeWidthChar::width` gives `c`: `None` for a control
/// character.
pub uninterp spec fn char_columns(c: char) -> Option<usize>;

/// `UnicodeWidthChar::width`: control codes have no width, printable ASCII one
/// column, and nothing more than three (the widest entry of its tables).
#[verifier::external_body]
pub(crate) fn char_width(c: char) -> (r: Option<usize>)
    ensures
        r == char_columns(c),
        (c as int) < 0x20 || (0x7f <= c as int && (c as int) < 0xa0) ==> r is None,
        0x20 <= c as int && (c as int) < 0x7f ==> r == Some(1usize),
        r matches Some(w) ==> w <= 3,
{
    unicode_width::UnicodeWidthChar::width(c)
}

/// The columns `UnicodeWidthStr::width` gives a string holding `s`.
pub uninterp spec fn text_columns(s: Seq<char>) -> usize;

/// `UnicodeWidthStr::width`.
#[verifier::external_body]
pub(crate) fn str_width(s: &str) -> (r: usize)
    ensures
        r == text_columns(s@),
{
    unicode_width::UnicodeWidthStr::width(s)
}

/// `n` spaces.
pub open spec fn spaces(n: nat) -> Seq<char> {
    Seq::new(n, |i: int| ' ')
}

/// A string of `n` spaces.
pub fn space_string(n: usize) -> (r: String)
    ensures
        r@ == spaces(n as nat),
{
    let mut out: Vec<char> = Vec::new();
    let mut k: usize = 0;
    while k < n
        invariant
            k <= n,
            out@ == spaces(k as nat),
        decreases n - k,
    {
        out.push(' ');
        k += 1;
        assert(out@ =~= spaces(k as nat));
    }
    string_from(out.as_slice())
}

} // verus!
