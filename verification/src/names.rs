//! Turning a filename into something comparable.
//!
//! Release names carry a lot of text that says nothing about *which* episode a
//! file holds: resolution, codec, release group, language. This module strips
//! that away, and pulls out the two identifiers matching relies on: an `SxxEyy`
//! episode id, and a trailing language tag.

use unicode_normalization::UnicodeNormalization;
use vstd::prelude::*;

use crate::text::{
    alphanumeric, ascii_alphanumeric, ascii_digit, ascii_lower, chars_of, eq_ignore_ascii_case,
    is_alphanumeric, is_ascii_alphanumeric, is_ascii_digit, is_whitespace, lowercase,
    string_from, to_lowercase, views, whitespace,
};

verus! {

// ------------------------------------------------------------------ tables

/// Language markers that may trail a subtitle stem, in sorted order.
///
/// Only alphanumeric runs are ever looked up here, so hyphenated forms such as
/// `zh-en` are absent by design: `language_tag` recognises those separately.
pub open spec fn language_tag_table() -> Seq<Seq<char>> {
    seq![
        "chi"@, "chinese"@, "chs"@, "cht"@, "cn"@, "en"@, "eng"@, "engchs"@, "english"@,
        "ja"@, "japanese"@, "jp"@, "jpn"@, "ko"@, "kor"@, "korean"@, "zh"@, "zho"@,
    ]
}

/// Release metadata that never helps tell two files apart, in sorted order.
pub open spec fn junk_token_table() -> Seq<Seq<char>> {
    seq![
        "1080p"@, "2160p"@, "4k"@, "720p"@, "aac"@, "bdrip"@, "bluray"@, "dl"@, "dts"@,
        "dvdrip"@, "extended"@, "h264"@, "h265"@, "hdr"@, "hdrip"@, "hevc"@, "proper"@,
        "rarbg"@, "remux"@, "repack"@, "sdr"@, "web"@, "webdl"@, "webrip"@, "x264"@, "x265"@,
        "yify"@,
    ]
}

/// The two halves of a combined language tag such as `chs-eng`, in match order.
pub open spec fn language_pair_table() -> Seq<Seq<char>> {
    seq!["chs"@, "cht"@, "eng"@, "zho"@, "chi"@, "zh"@, "en"@, "ja"@, "jpn"@, "ko"@, "kor"@]
}

pub open spec fn str_views(v: Seq<&'static str>) -> Seq<Seq<char>> {
    v.map_values(|t: &'static str| t@)
}

/// The language markers, as `language_tag_table` lists them.
pub fn language_tags() -> (r: Vec<&'static str>)
    ensures
        str_views(r@) == language_tag_table(),
{
    let r = vec![
        "chi", "chinese", "chs", "cht", "cn", "en", "eng", "engchs", "english", "ja",
        "japanese", "jp", "jpn", "ko", "kor", "korean", "zh", "zho",
    ];
    assert(str_views(r@) =~= language_tag_table());
    r
}

/// The junk tokens, as `junk_token_table` lists them.
pub fn junk_tokens() -> (r: Vec<&'static str>)
    ensures
        str_views(r@) == junk_token_table(),
{
    let r = vec![
        "1080p", "2160p", "4k", "720p", "aac", "bdrip", "bluray", "dl", "dts", "dvdrip",
        "extended", "h264", "h265", "hdr", "hdrip", "hevc", "proper", "rarbg", "remux",
        "repack", "sdr", "web", "webdl", "webrip", "x264", "x265", "yify",
    ];
    assert(str_views(r@) =~= junk_token_table());
    r
}

fn language_pair_parts() -> (r: Vec<&'static str>)
    ensures
        str_views(r@) == language_pair_table(),
{
    let r = vec!["chs", "cht", "eng", "zho", "chi", "zh", "en", "ja", "jpn", "ko", "kor"];
    assert(str_views(r@) =~= language_pair_table());
    r
}

/// Whether `table` holds a string with exactly the characters of `token`.
fn table_contains(table: &Vec<&'static str>, token: &str) -> (r: bool)
    ensures
        r == str_views(table@).contains(token@),
{
    let wanted = chars_of(token);
    let mut index: usize = 0;
    while index < table.len()
        invariant
            index <= table.len(),
            wanted@ == token@,
            forall|k: int| 0 <= k < index ==> table@[k]@ != token@,
        decreases table.len() - index,
    {
        let entry = chars_of(table[index]);
        if same_chars(&entry, &wanted) {
            assert(str_views(table@)[index as int] == token@);
            return true;
        }
        index += 1;
    }
    assert forall|k: int| 0 <= k < str_views(table@).len() implies str_views(table@)[k]
        != token@ by {
        assert(str_views(table@)[k] == table@[k]@);
    }
    false
}

/// Element-wise equality of two character vectors.
fn same_chars(left: &Vec<char>, right: &Vec<char>) -> (r: bool)
    ensures
        r == (left@ == right@),
{
    if left.len() != right.len() {
        return false;
    }
    let mut index: usize = 0;
    while index < left.len()
        invariant
            left.len() == right.len(),
            index <= left.len(),
            forall|k: int| 0 <= k < index ==> left@[k] == right@[k],
        decreases left.len() - index,
    {
        if left[index] != right[index] {
            return false;
        }
        index += 1;
    }
    assert(left@ =~= right@);
    true
}

pub open spec fn is_language_tag(token: Seq<char>) -> bool {
    language_tag_table().contains(token)
}

pub open spec fn is_junk_token(token: Seq<char>) -> bool {
    junk_token_table().contains(token)
}

fn is_language_token(token: &str) -> (r: bool)
    ensures
        r == is_language_tag(token@),
{
    table_contains(&language_tags(), token)
}

fn is_junk(token: &str) -> (r: bool)
    ensures
        r == is_junk_token(token@),
{
    table_contains(&junk_tokens(), token)
}

// ------------------------------------------------------------------ tokens

/// What `UnicodeNormalization::nfc` yields for a string holding `s`: its
/// Unicode Normalization Form C.
pub uninterp spec fn nfc(s: Seq<char>) -> Seq<char>;

/// `UnicodeNormalization::nfc` of the `unicode-normalization` crate.
#[verifier::external_body]
fn nfc_chars(s: &str) -> (r: Vec<char>)
    ensures
        r@ == nfc(s@),
{
    s.nfc().collect()
}

/// The finished tokens and the run in progress, after reading `s` left to right.
pub open spec fn token_state(s: Seq<char>) -> (Seq<Seq<char>>, Seq<char>)
    decreases s.len(),
{
    if s.len() == 0 {
        (seq![], seq![])
    } else {
        let (done, current) = token_state(s.drop_last());
        let c = s.last();
        if alphanumeric(c) {
            (done, current.push(c))
        } else if current.len() > 0 {
            (done.push(current), seq![])
        } else {
            (done, seq![])
        }
    }
}

/// The maximal runs of alphanumeric characters of `s`, in order.
pub open spec fn tokens(s: Seq<char>) -> Seq<Seq<char>> {
    let (done, current) = token_state(s);
    if current.len() > 0 {
        done.push(current)
    } else {
        done
    }
}

/// The runs of alphanumeric characters of `characters`, in order.
fn tokens_of(characters: &Vec<char>) -> (r: Vec<String>)
    ensures
        views(r@) == tokens(characters@),
{
    let mut done: Vec<String> = Vec::new();
    let mut current: Vec<char> = Vec::new();
    let mut index: usize = 0;
    while index < characters.len()
        invariant
            index <= characters.len(),
            token_state(characters@.take(index as int)) == (views(done@), current@),
        decreases characters.len() - index,
    {
        let character = characters[index];
        proof {
            assert(characters@.take(index + 1).drop_last() =~= characters@.take(index as int));
        }
        if is_alphanumeric(character) {
            current.push(character);
        } else if current.len() > 0 {
            let token = string_from(current.as_slice());
            done.push(token);
            current = Vec::new();
            assert(views(done@) =~= token_state(characters@.take(index as int)).0.push(
                token_state(characters@.take(index as int)).1,
            ));
        }
        index += 1;
    }
    assert(characters@.take(index as int) =~= characters@);
    if current.len() > 0 {
        let token = string_from(current.as_slice());
        done.push(token);
        assert(views(done@) =~= tokens(characters@));
    }
    done
}

/// Split `text` into runs of alphanumeric characters, after NFC normalisation.
///
/// Normalising first means a macOS-decomposed filename and a composed one produce
/// the same tokens.
pub fn split_tokens(text: &str) -> (r: Vec<String>)
    ensures
        views(r@) == tokens(nfc(text@)),
{
    let characters = nfc_chars(text);
    tokens_of(&characters)
}

/// The characters a stem's pieces are normalised between: `.`, `_` and a space.
pub open spec fn piece_break(c: char) -> bool {
    c == '.' || c == '_' || c == ' '
}

/// The text written so far and the piece in progress, after reading `s` left
/// to right: each finished piece is written in NFC, followed by its break.
pub open spec fn piece_state(s: Seq<char>) -> (Seq<char>, Seq<char>)
    decreases s.len(),
{
    if s.len() == 0 {
        (seq![], seq![])
    } else {
        let (done, piece) = piece_state(s.drop_last());
        let c = s.last();
        if piece_break(c) {
            (done + nfc(piece) + seq![c], seq![])
        } else {
            (done, piece.push(c))
        }
    }
}

/// `s` with every piece between the breaks put in NFC, the breaks kept. The
/// breaks are ASCII characters that no canonical composition involves, so this
/// is the NFC of the whole text, taken a piece at a time.
pub open spec fn nfc_pieces(s: Seq<char>) -> Seq<char> {
    piece_state(s).0 + nfc(piece_state(s).1)
}

/// The NFC of `text`, a piece between breaks at a time.
fn nfc_by_pieces(text: &str) -> (r: Vec<char>)
    ensures
        r@ == nfc_pieces(text@),
{
    let characters = chars_of(text);
    let mut done: Vec<char> = Vec::new();
    let mut piece: Vec<char> = Vec::new();
    let mut index: usize = 0;
    while index < characters.len()
        invariant
            index <= characters.len(),
            characters@ == text@,
            piece_state(characters@.take(index as int)) == (done@, piece@),
        decreases characters.len() - index,
    {
        let character = characters[index];
        proof {
            assert(characters@.take(index + 1).drop_last() =~= characters@.take(index as int));
        }
        if character == '.' || character == '_' || character == ' ' {
            let text_piece = string_from(piece.as_slice());
            let mut normal = nfc_chars(text_piece.as_str());
            let ghost before = done@;
            done.append(&mut normal);
            done.push(character);
            assert(done@ =~= before + nfc(piece@) + seq![character]);
            piece = Vec::new();
            assert(piece_state(characters@.take(index + 1)) == (done@, piece@));
        } else {
            piece.push(character);
        }
        index += 1;
    }
    assert(characters@.take(index as int) =~= characters@);
    let text_piece = string_from(piece.as_slice());
    let mut normal = nfc_chars(text_piece.as_str());
    done.append(&mut normal);
    done
}

// ---------------------------------------------------------- normalized stem

pub open spec fn is_opener(c: char) -> bool {
    c == '[' || c == '(' || c == '{'
}

/// The bracket that closes the group `open` starts.
pub open spec fn closing_of(open: char) -> char {
    if open == '[' {
        ']'
    } else if open == '(' {
        ')'
    } else {
        '}'
    }
}

/// The first `close` at or after `from`.
pub open spec fn closer_from(s: Seq<char>, from: int, close: char) -> Option<int>
    decreases s.len() - from,
{
    if from < 0 || from >= s.len() {
        None
    } else if s[from] == close {
        Some(from)
    } else {
        closer_from(s, from + 1, close)
    }
}

proof fn lemma_closer_from(s: Seq<char>, from: int, close: char)
    requires
        0 <= from,
    ensures
        closer_from(s, from, close) matches Some(k) ==> from <= k < s.len() && s[k] == close && (
        forall|m: int| from <= m < k ==> #[trigger] s[m] != close),
        closer_from(s, from, close) is None ==> forall|m: int|
            from <= m < s.len() ==> #[trigger] s[m] != close,
    decreases s.len() - from,
{
    if from < s.len() && s[from] != close {
        lemma_closer_from(s, from + 1, close);
    }
}

/// `s` from position `i` on, with every closed bracket group replaced by a space.
pub open spec fn strip_from(s: Seq<char>, i: int) -> Seq<char>
    decreases s.len() - i,
{
    if i < 0 || i >= s.len() {
        seq![]
    } else if is_opener(s[i]) && closer_from(s, i + 1, closing_of(s[i])) is Some {
        let k = closer_from(s, i + 1, closing_of(s[i]))->0;
        if i < k < s.len() {
            seq![' '] + strip_from(s, k + 1)
        } else {
            seq![]
        }
    } else {
        seq![s[i]] + strip_from(s, i + 1)
    }
}

/// Replace every `[...]`, `(...)` or `{...}` group with a space.
///
/// A group runs from an opener to the first bracket of the same kind that
/// closes it, so `[` closes only at `]`. An unclosed opener is left alone
/// rather than swallowing the rest of the name.
fn strip_bracketed_groups(stem: &str) -> (r: String)
    ensures
        r@ == strip_from(stem@, 0),
{
    let characters = chars_of(stem);
    let mut result: Vec<char> = Vec::new();
    let mut index: usize = 0;
    while index < characters.len()
        invariant
            index <= characters.len(),
            characters@ == stem@,
            result@ + strip_from(characters@, index as int) == strip_from(characters@, 0),
        decreases characters.len() - index,
    {
        let character = characters[index];
        if character == '[' || character == '(' || character == '{' {
            let close = if character == '[' {
                ']'
            } else if character == '(' {
                ')'
            } else {
                '}'
            };
            assert(close == closing_of(character));
            let mut probe: usize = index + 1;
            while probe < characters.len() && characters[probe] != close
                invariant
                    index < probe <= characters.len(),
                    closer_from(characters@, index + 1, close) == closer_from(characters@, probe as int, close),
                decreases characters.len() - probe,
            {
                probe += 1;
            }
            if probe < characters.len() {
                proof {
                    lemma_closer_from(characters@, index + 1, close);
                }
                result.push(' ');
                assert(result@ + strip_from(characters@, probe + 1) =~= strip_from(
                    characters@,
                    0,
                ));
                index = probe + 1;
                continue;
            }
        }
        result.push(character);
        assert(result@ + strip_from(characters@, index + 1) =~= strip_from(characters@, 0));
        index += 1;
    }
    string_from(result.as_slice())
}

/// Lowercase every token and drop the junk ones.
pub open spec fn kept_tokens(ts: Seq<Seq<char>>) -> Seq<Seq<char>>
    decreases ts.len(),
{
    if ts.len() == 0 {
        seq![]
    } else {
        let lowered = lowercase(ts.last());
        if is_junk_token(lowered) {
            kept_tokens(ts.drop_last())
        } else {
            kept_tokens(ts.drop_last()).push(lowered)
        }
    }
}

/// `ts` without the language tags at its end.
pub open spec fn drop_trailing_tags(ts: Seq<Seq<char>>) -> Seq<Seq<char>>
    decreases ts.len(),
{
    if ts.len() > 0 && is_language_tag(ts.last()) {
        drop_trailing_tags(ts.drop_last())
    } else {
        ts
    }
}

/// The tokens of `ts` written one after the other.
pub open spec fn joined(ts: Seq<Seq<char>>) -> Seq<char>
    decreases ts.len(),
{
    if ts.len() == 0 {
        seq![]
    } else {
        joined(ts.drop_last()) + ts.last()
    }
}

/// The comparable form of a stem.
pub open spec fn normalized(stem: Seq<char>) -> Seq<char> {
    joined(drop_trailing_tags(kept_tokens(tokens(nfc_pieces(strip_from(stem, 0))))))
}

/// The words of a stem that survive cleaning, before trailing language tags
/// are dropped: bracket groups gone, split into runs of letters and digits,
/// lowercased, junk words left out.
pub open spec fn stem_words(stem: Seq<char>) -> Seq<Seq<char>> {
    kept_tokens(tokens(nfc_pieces(strip_from(stem, 0))))
}

proof fn lemma_drop_trailing_tags(ts: Seq<Seq<char>>)
    ensures
        ({
            let k = drop_trailing_tags(ts).len() as int;
            &&& k <= ts.len()
            &&& drop_trailing_tags(ts) == ts.take(k)
            &&& k == 0 || !is_language_tag(ts[k - 1])
            &&& forall|i: int| k <= i < ts.len() ==> is_language_tag(#[trigger] ts[i])
        }),
    decreases ts.len(),
{
    if ts.len() > 0 && is_language_tag(ts.last()) {
        lemma_drop_trailing_tags(ts.drop_last());
        let k = drop_trailing_tags(ts).len() as int;
        assert(ts.drop_last().take(k) =~= ts.take(k));
        assert forall|i: int| k <= i < ts.len() implies is_language_tag(#[trigger] ts[i]) by {
            if i < ts.len() - 1 {
                assert(ts.drop_last()[i] == ts[i]);
            }
        }
        if k > 0 {
            assert(ts.drop_last()[k - 1] == ts[k - 1]);
        }
    } else {
        assert(ts.take(ts.len() as int) =~= ts);
    }
}

/// Every language tag at the end of a stem is dropped, however many there
/// are, and nothing else is: the comparable form is the stem's words up to
/// the last one that is not a language tag.
pub proof fn lemma_trailing_tags_are_all_dropped(stem: Seq<char>)
    ensures
        exists|k: int| {
            &&& 0 <= k <= stem_words(stem).len()
            &&& normalized(stem) == joined(#[trigger] stem_words(stem).take(k))
            &&& k == 0 || !is_language_tag(stem_words(stem)[k - 1])
            &&& forall|i: int| k <= i < stem_words(stem).len() ==> is_language_tag(#[trigger] stem_words(stem)[i])
        },
{
    let ws = stem_words(stem);
    lemma_drop_trailing_tags(ws);
    let k = drop_trailing_tags(ws).len() as int;
    assert(normalized(stem) == joined(ws.take(k)));
}

/// `u` and `v` differ at most in which of `.`, `_` and a space stands where.
pub open spec fn same_but_breaks(u: Seq<char>, v: Seq<char>) -> bool {
    &&& u.len() == v.len()
    &&& forall|i: int| 0 <= i < u.len() ==> #[trigger] u[i] == v[i] || (piece_break(u[i]) && piece_break(v[i]))
}

proof fn lemma_breaks_concat(a: Seq<char>, b: Seq<char>, c: Seq<char>, d: Seq<char>)
    requires
        same_but_breaks(a, b),
        same_but_breaks(c, d),
    ensures
        same_but_breaks(a + c, b + d),
{
    assert forall|i: int| 0 <= i < (a + c).len() implies #[trigger] (a + c)[i] == (b + d)[i] || (piece_break((a + c)[i]) && piece_break((b + d)[i])) by {
        if i < a.len() {
            assert((a + c)[i] == a[i] && (b + d)[i] == b[i]);
        } else {
            assert((a + c)[i] == c[i - a.len()] && (b + d)[i] == d[i - a.len()]);
        }
    }
}

proof fn lemma_breaks_drop_last(u: Seq<char>, v: Seq<char>)
    requires
        same_but_breaks(u, v),
        u.len() > 0,
    ensures
        same_but_breaks(u.drop_last(), v.drop_last()),
        u.last() == v.last() || (piece_break(u.last()) && piece_break(v.last())),
{
    assert(u.last() == u[u.len() - 1]);
    assert forall|i: int| 0 <= i < u.drop_last().len() implies #[trigger] u.drop_last()[i] == v.drop_last()[i] || (piece_break(u.drop_last()[i]) && piece_break(v.drop_last()[i])) by {
        assert(u.drop_last()[i] == u[i] && v.drop_last()[i] == v[i]);
    }
}

proof fn lemma_closer_ignores_breaks(u: Seq<char>, v: Seq<char>, from: int, close: char)
    requires
        same_but_breaks(u, v),
        !piece_break(close),
    ensures
        closer_from(u, from, close) == closer_from(v, from, close),
    decreases u.len() - from,
{
    if 0 <= from < u.len() {
        assert(u[from] == v[from] || (piece_break(u[from]) && piece_break(v[from])));
        lemma_closer_ignores_breaks(u, v, from + 1, close);
    }
}

proof fn lemma_strip_ignores_breaks(u: Seq<char>, v: Seq<char>, i: int)
    requires
        same_but_breaks(u, v),
    ensures
        same_but_breaks(strip_from(u, i), strip_from(v, i)),
    decreases u.len() - i,
{
    if 0 <= i < u.len() {
        assert(u[i] == v[i] || (piece_break(u[i]) && piece_break(v[i])));
        if is_opener(u[i]) {
            assert(u[i] == v[i]);
            lemma_closer_ignores_breaks(u, v, i + 1, closing_of(u[i]));
        }
        if is_opener(u[i]) && closer_from(u, i + 1, closing_of(u[i])) is Some {
            let k = closer_from(u, i + 1, closing_of(u[i]))->0;
            if i < k < u.len() {
                lemma_strip_ignores_breaks(u, v, k + 1);
                lemma_breaks_concat(seq![' '], seq![' '], strip_from(u, k + 1), strip_from(v, k + 1));
            }
        } else {
            assert(!is_opener(v[i]) || closer_from(v, i + 1, closing_of(v[i])) is None);
            lemma_strip_ignores_breaks(u, v, i + 1);
            assert(same_but_breaks(seq![u[i]], seq![v[i]]));
            lemma_breaks_concat(seq![u[i]], seq![v[i]], strip_from(u, i + 1), strip_from(v, i + 1));
        }
    }
}

proof fn lemma_pieces_ignore_breaks(u: Seq<char>, v: Seq<char>)
    requires
        same_but_breaks(u, v),
    ensures
        piece_state(u).1 == piece_state(v).1,
        same_but_breaks(piece_state(u).0, piece_state(v).0),
    decreases u.len(),
{
    if u.len() > 0 {
        lemma_breaks_drop_last(u, v);
        lemma_pieces_ignore_breaks(u.drop_last(), v.drop_last());
        let (du, pu) = piece_state(u.drop_last());
        let (dv, pv) = piece_state(v.drop_last());
        if piece_break(u.last()) {
            assert(piece_break(v.last()));
            assert(same_but_breaks(nfc(pu), nfc(pv)));
            lemma_breaks_concat(du, dv, nfc(pu), nfc(pv));
            assert(same_but_breaks(seq![u.last()], seq![v.last()]));
            lemma_breaks_concat(du + nfc(pu), dv + nfc(pv), seq![u.last()], seq![v.last()]);
        } else {
            assert(u.last() == v.last());
        }
    }
}

proof fn lemma_tokens_ignore_breaks(u: Seq<char>, v: Seq<char>)
    requires
        same_but_breaks(u, v),
    ensures
        token_state(u) == token_state(v),
    decreases u.len(),
{
    if u.len() > 0 {
        lemma_breaks_drop_last(u, v);
        lemma_tokens_ignore_breaks(u.drop_last(), v.drop_last());
        if u.last() != v.last() {
            assert(!alphanumeric(u.last()) && !alphanumeric(v.last()));
        }
    }
}

/// Which of `.`, `_` and a space separates the words of a stem does not
/// matter: stems that differ only there have the same comparable form.
pub proof fn lemma_separators_do_not_matter(u: Seq<char>, v: Seq<char>)
    requires
        same_but_breaks(u, v),
    ensures
        normalized(u) == normalized(v),
{
    lemma_strip_ignores_breaks(u, v, 0);
    let su = strip_from(u, 0);
    let sv = strip_from(v, 0);
    lemma_pieces_ignore_breaks(su, sv);
    assert(same_but_breaks(nfc(piece_state(su).1), nfc(piece_state(sv).1)));
    lemma_breaks_concat(piece_state(su).0, piece_state(sv).0, nfc(piece_state(su).1), nfc(piece_state(sv).1));
    lemma_tokens_ignore_breaks(nfc_pieces(su), nfc_pieces(sv));
}

/// Reduce a filename stem to the part worth comparing.
///
/// Bracketed groups go first, then junk tokens, then any trailing language tags;
/// what is left is lowercased and joined without separators, so `.` `_` and ` `
/// stop mattering.
pub fn normalize_stem(stem: &str) -> (r: String)
    ensures
        r@ == normalized(stem@),
{
    let without_brackets = strip_bracketed_groups(stem);
    let normal = nfc_by_pieces(without_brackets.as_str());
    let split = tokens_of(&normal);
    let mut kept: Vec<String> = Vec::new();
    let mut index: usize = 0;
    while index < split.len()
        invariant
            index <= split.len(),
            views(split@) == tokens(nfc_pieces(without_brackets@)),
            views(kept@) == kept_tokens(views(split@).take(index as int)),
        decreases split.len() - index,
    {
        let lowered = to_lowercase(split[index].as_str());
        proof {
            assert(views(split@).take(index + 1).drop_last() =~= views(split@).take(
                index as int,
            ));
        }
        if !is_junk(lowered.as_str()) {
            kept.push(lowered);
            assert(views(kept@) =~= kept_tokens(views(split@).take(index as int)).push(
                lowercase(split@[index as int]@),
            ));
        }
        index += 1;
    }
    assert(views(split@).take(index as int) =~= views(split@));
    let ghost all_kept = views(kept@);
    while kept.len() > 0 && is_language_token(kept[kept.len() - 1].as_str())
        invariant
            drop_trailing_tags(views(kept@)) == drop_trailing_tags(all_kept),
        decreases kept.len(),
    {
        let ghost before = views(kept@);
        kept.pop();
        assert(views(kept@) =~= before.drop_last());
    }
    let mut result = String::new();
    let mut position: usize = 0;
    while position < kept.len()
        invariant
            position <= kept.len(),
            result@ == joined(views(kept@).take(position as int)),
        decreases kept.len() - position,
    {
        proof {
            assert(views(kept@).take(position + 1).drop_last() =~= views(kept@).take(
                position as int,
            ));
        }
        result.append(kept[position].as_str());
        position += 1;
    }
    assert(views(kept@).take(position as int) =~= views(kept@));
    result
}

// --------------------------------------------------------------- episode ids

pub open spec fn starts_on_boundary(s: Seq<char>, i: int) -> bool {
    i == 0 || !ascii_alphanumeric(s[i - 1])
}

pub open spec fn ends_on_boundary(s: Seq<char>, i: int) -> bool {
    i >= s.len() || !ascii_alphanumeric(s[i])
}

pub open spec fn digit_value(c: char) -> int {
    c as int - '0' as int
}

/// The number written by the `length` ASCII digits at `start`, if they are there.
pub open spec fn digits_at(s: Seq<char>, start: int, length: int) -> Option<int> {
    if 0 <= start && start + length <= s.len() && (forall|k: int|
        start <= k < start + length ==> ascii_digit(#[trigger] s[k])) {
        if length == 1 {
            Some(digit_value(s[start]))
        } else {
            Some(10 * digit_value(s[start]) + digit_value(s[start + 1]))
        }
    } else {
        None
    }
}

pub open spec fn is_separator(c: char) -> bool {
    c == '-' || c == '_' || c == '.' || whitespace(c)
}

/// The first position at or after `i` that is not a separator.
pub open spec fn skip_seps(s: Seq<char>, i: int) -> int
    decreases s.len() - i,
{
    if 0 <= i < s.len() && is_separator(s[i]) {
        skip_seps(s, i + 1)
    } else {
        i
    }
}

/// The episode number after an `E` at `position - 1`, read with `length` digits.
pub open spec fn episode_after(s: Seq<char>, position: int, length: int) -> Option<int> {
    match digits_at(s, position, length) {
        Some(episode) => if ends_on_boundary(s, position + length) {
            Some(episode)
        } else {
            None
        },
        None => None,
    }
}

/// Either reading of the episode digits, two first.
pub open spec fn episode_either(s: Seq<char>, position: int) -> Option<int> {
    match episode_after(s, position, 2) {
        Some(e) => Some(e),
        None => episode_after(s, position, 1),
    }
}

/// `<season digits><separators>E<episode digits>` after an `S`, with the season
/// read with `length` digits.
pub open spec fn tail_with(s: Seq<char>, after: int, length: int) -> Option<(int, int)> {
    match digits_at(s, after, length) {
        Some(season) => {
            let p = skip_seps(s, after + length);
            if 0 <= p < s.len() && (s[p] == 'e' || s[p] == 'E') {
                match episode_either(s, p + 1) {
                    Some(episode) => Some((season, episode)),
                    None => None,
                }
            } else {
                None
            }
        },
        None => None,
    }
}

/// The season and episode after the `S` at `after - 1`: a two-digit season is
/// tried first, as a backtracking regex engine would.
pub open spec fn episode_tail(s: Seq<char>, after: int) -> Option<(int, int)> {
    match tail_with(s, after, 2) {
        Some(found) => Some(found),
        None => tail_with(s, after, 1),
    }
}

pub open spec fn season_marker_at(s: Seq<char>, start: int) -> Option<(int, int)> {
    if starts_on_boundary(s, start) && (s[start] == 's' || s[start] == 'S') {
        episode_tail(s, start + 1)
    } else {
        None
    }
}

/// The leftmost `S01E02`-style id at or after `start`.
pub open spec fn season_episode_from(s: Seq<char>, start: int) -> Option<(int, int)>
    decreases s.len() - start,
{
    if start < 0 || start >= s.len() {
        None
    } else {
        match season_marker_at(s, start) {
            Some(found) => Some(found),
            None => season_episode_from(s, start + 1),
        }
    }
}

/// `<season digits><separators>x<separators><episode digits>` at `start`, the
/// season read with `length` digits.
pub open spec fn cross_with(s: Seq<char>, start: int, length: int) -> Option<(int, int)> {
    match digits_at(s, start, length) {
        Some(season) => {
            let p = skip_seps(s, start + length);
            if 0 <= p < s.len() && (s[p] == 'x' || s[p] == 'X') {
                match episode_either(s, skip_seps(s, p + 1)) {
                    Some(episode) => Some((season, episode)),
                    None => None,
                }
            } else {
                None
            }
        },
        None => None,
    }
}

pub open spec fn cross_at(s: Seq<char>, start: int) -> Option<(int, int)> {
    if starts_on_boundary(s, start) {
        match cross_with(s, start, 2) {
            Some(found) => Some(found),
            None => cross_with(s, start, 1),
        }
    } else {
        None
    }
}

/// The leftmost `1x02`-style id at or after `start`.
pub open spec fn cross_from(s: Seq<char>, start: int) -> Option<(int, int)>
    decreases s.len() - start,
{
    if start < 0 || start >= s.len() {
        None
    } else {
        match cross_at(s, start) {
            Some(found) => Some(found),
            None => cross_from(s, start + 1),
        }
    }
}

pub open spec fn digit_char(d: int) -> char {
    (d + 48) as char
}

/// `S` and two season digits, `E` and two episode digits.
pub open spec fn key_chars(season: int, episode: int) -> Seq<char> {
    seq![
        'S',
        digit_char(season / 10),
        digit_char(season % 10),
        'E',
        digit_char(episode / 10),
        digit_char(episode % 10),
    ]
}

/// The episode id of a filename: an `S01E02` form anywhere wins, then `1x02`.
pub open spec fn episode_id(name: Seq<char>) -> Option<Seq<char>> {
    match season_episode_from(name, 0) {
        Some((season, episode)) => Some(key_chars(season, episode)),
        None => match cross_from(name, 0) {
            Some((season, episode)) => Some(key_chars(season, episode)),
            None => None,
        },
    }
}

proof fn lemma_marker_found_from(s: Seq<char>, j: int, k: int)
    requires
        0 <= j <= k < s.len(),
        season_marker_at(s, k) is Some,
    ensures
        season_episode_from(s, j) is Some,
        (forall|i: int| j <= i < k ==> #[trigger] season_marker_at(s, i) is None) ==> season_episode_from(s, j) == season_marker_at(s, k),
    decreases k - j,
{
    if j < k {
        lemma_marker_found_from(s, j + 1, k);
    }
}

proof fn lemma_two_digits(a: char, b: char)
    requires
        ascii_digit(a),
        ascii_digit(b),
    ensures
        digit_char((10 * digit_value(a) + digit_value(b)) / 10) == a,
        digit_char((10 * digit_value(a) + digit_value(b)) % 10) == b,
{
    let x = digit_value(a);
    let y = digit_value(b);
    assert(0 <= x < 10 && 0 <= y < 10);
    assert((10 * x + y) / 10 == x && (10 * x + y) % 10 == y) by (nonlinear_arith)
        requires
            0 <= x < 10,
            0 <= y < 10,
    ;
    assert(x + 48 == a as int);
    assert(y + 48 == b as int);
}

proof fn lemma_marker_reads(s: Seq<char>, k: int, d1: char, d2: char, e1: char, e2: char)
    requires
        0 <= k,
        k + 6 <= s.len(),
        k == 0 || !ascii_alphanumeric(s[k - 1]),
        s[k] == 'S',
        s[k + 1] == d1,
        s[k + 2] == d2,
        s[k + 3] == 'E',
        s[k + 4] == e1,
        s[k + 5] == e2,
        ascii_digit(d1),
        ascii_digit(d2),
        ascii_digit(e1),
        ascii_digit(e2),
        k + 6 == s.len() || !ascii_alphanumeric(s[k + 6]),
    ensures
        season_marker_at(s, k) == Some((10 * digit_value(d1) + digit_value(d2), 10 * digit_value(e1) + digit_value(e2))),
{
    assert(digits_at(s, k + 1, 2) == Some(10 * digit_value(d1) + digit_value(d2)));
    assert(skip_seps(s, k + 3) == k + 3);
    assert(digits_at(s, k + 4, 2) == Some(10 * digit_value(e1) + digit_value(e2)));
    assert(episode_after(s, k + 4, 2) == Some(10 * digit_value(e1) + digit_value(e2)));
}

/// An `S01E02` id standing on its own, after any character that is not an
/// ASCII letter or digit and before another such character or the end, is
/// always found; and when nothing before it is an `s` or `S`, it is the id.
pub proof fn lemma_standalone_episode_id_is_found(
    p: Seq<char>,
    c: char,
    d1: char,
    d2: char,
    e1: char,
    e2: char,
    q: Seq<char>,
)
    requires
        !ascii_alphanumeric(c),
        ascii_digit(d1),
        ascii_digit(d2),
        ascii_digit(e1),
        ascii_digit(e2),
        q.len() == 0 || !ascii_alphanumeric(q[0]),
    ensures
        episode_id(p + seq![c, 'S', d1, d2, 'E', e1, e2] + q) is Some,
        (forall|i: int| 0 <= i < p.len() ==> #[trigger] p[i] != 's' && p[i] != 'S') ==> episode_id(
            p + seq![c, 'S', d1, d2, 'E', e1, e2] + q,
        ) == Some(seq!['S', d1, d2, 'E', e1, e2]),
{
    let s = p + seq![c, 'S', d1, d2, 'E', e1, e2] + q;
    let k: int = p.len() as int + 1;
    assert(s[k - 1] == c);
    assert(s[k] == 'S' && s[k + 1] == d1 && s[k + 2] == d2 && s[k + 3] == 'E' && s[k + 4] == e1 && s[k + 5] == e2);
    if q.len() > 0 {
        assert(s[k + 6] == q[0]);
    }
    lemma_marker_reads(s, k, d1, d2, e1, e2);
    lemma_marker_found_from(s, 0, k);
    lemma_two_digits(d1, d2);
    lemma_two_digits(e1, e2);
    if forall|i: int| 0 <= i < p.len() ==> #[trigger] p[i] != 's' && p[i] != 'S' {
        assert forall|i: int| 0 <= i < k implies #[trigger] season_marker_at(s, i) is None by {
            if i < p.len() {
                assert(s[i] == p[i]);
            } else {
                assert(s[i] == c);
            }
        }
        assert(key_chars(10 * digit_value(d1) + digit_value(d2), 10 * digit_value(e1) + digit_value(e2)) =~= seq!['S', d1, d2, 'E', e1, e2]);
    }
}

/// An `S01E02` id at the very start of a name, followed by the end or by a
/// character that is not an ASCII letter or digit, is the name's id.
pub proof fn lemma_leading_episode_id_is_found(d1: char, d2: char, e1: char, e2: char, q: Seq<char>)
    requires
        ascii_digit(d1),
        ascii_digit(d2),
        ascii_digit(e1),
        ascii_digit(e2),
        q.len() == 0 || !ascii_alphanumeric(q[0]),
    ensures
        episode_id(seq!['S', d1, d2, 'E', e1, e2] + q) == Some(seq!['S', d1, d2, 'E', e1, e2]),
{
    let s = seq!['S', d1, d2, 'E', e1, e2] + q;
    assert(s[0] == 'S' && s[1] == d1 && s[2] == d2 && s[3] == 'E' && s[4] == e1 && s[5] == e2);
    if q.len() > 0 {
        assert(s[6] == q[0]);
    }
    lemma_marker_reads(s, 0, d1, d2, e1, e2);
    lemma_two_digits(d1, d2);
    lemma_two_digits(e1, e2);
    assert(key_chars(10 * digit_value(d1) + digit_value(d2), 10 * digit_value(e1) + digit_value(e2)) =~= seq!['S', d1, d2, 'E', e1, e2]);
}

/// Extract a season/episode identifier from a filename, as `S01E02`.
///
/// Recognises `S01E02` (with any of `-`, `_`, `.` or spaces between the parts)
/// and `1x02`. Both forms must stand alone: neither may be glued to surrounding
/// letters or digits, so `MYS01E02X` is not an episode id.
pub fn episode_key(name: &str) -> (r: Option<String>)
    ensures
        r matches Some(key) ==> episode_id(name@) == Some(key@),
        r is None ==> episode_id(name@) is None,
{
    let characters = chars_of(name);
    match season_episode_form(&characters) {
        Some((season, episode)) => Some(format_key(season, episode)),
        None => match cross_form(&characters) {
            Some((season, episode)) => Some(format_key(season, episode)),
            None => None,
        },
    }
}

/// `S01E02` and friends.
fn season_episode_form(characters: &Vec<char>) -> (r: Option<(u32, u32)>)
    ensures
        r matches Some((a, b)) ==> season_episode_from(characters@, 0) == Some((a as int, b as int))
            && a < 100 && b < 100,
        r is None ==> season_episode_from(characters@, 0) is None,
{
    let mut start: usize = 0;
    while start < characters.len()
        invariant
            start <= characters.len(),
            season_episode_from(characters@, 0) == season_episode_from(characters@, start as int),
        decreases characters.len() - start,
    {
        if starts_on_boundary_at(characters, start) && (characters[start] == 's'
            || characters[start] == 'S') {
            if let Some(found) = match_episode_tail(characters, start + 1) {
                return Some(found);
            }
        }
        start += 1;
    }
    None
}

fn match_episode_tail(characters: &Vec<char>, after_marker: usize) -> (r: Option<(u32, u32)>)
    requires
        after_marker <= characters.len(),
    ensures
        r matches Some((a, b)) ==> episode_tail(characters@, after_marker as int) == Some(
            (a as int, b as int),
        ) && a < 100 && b < 100,
        r is None ==> episode_tail(characters@, after_marker as int) is None,
{
    match season_tail(characters, after_marker, 2) {
        Some(found) => Some(found),
        None => season_tail(characters, after_marker, 1),
    }
}

fn season_tail(characters: &Vec<char>, after_marker: usize, season_length: usize) -> (r: Option<
    (u32, u32),
>)
    requires
        after_marker <= characters.len(),
        season_length == 1 || season_length == 2,
    ensures
        r matches Some((a, b)) ==> tail_with(characters@, after_marker as int, season_length as int)
            == Some((a as int, b as int)) && a < 100 && b < 100,
        r is None ==> tail_with(characters@, after_marker as int, season_length as int) is None,
{
    let season = match read_digits(characters, after_marker, season_length) {
        Some(season) => season,
        None => return None,
    };
    let position = skip_separators(characters, after_marker + season_length);
    if !(position < characters.len() && (characters[position] == 'e' || characters[position]
        == 'E')) {
        return None;
    }
    match read_episode(characters, position + 1) {
        Some(episode) => Some((season, episode)),
        None => None,
    }
}

/// The episode digits at `position`, two first, ending on a boundary.
fn read_episode(characters: &Vec<char>, position: usize) -> (r: Option<u32>)
    requires
        position <= characters.len(),
    ensures
        r matches Some(e) ==> episode_either(characters@, position as int) == Some(e as int) && e < 100,
        r is None ==> episode_either(characters@, position as int) is None,
{
    if let Some(episode) = read_digits(characters, position, 2) {
        if ends_on_boundary_at(characters, position + 2) {
            return Some(episode);
        }
    }
    if let Some(episode) = read_digits(characters, position, 1) {
        if ends_on_boundary_at(characters, position + 1) {
            return Some(episode);
        }
    }
    None
}

/// `1x02` and friends.
fn cross_form(characters: &Vec<char>) -> (r: Option<(u32, u32)>)
    ensures
        r matches Some((a, b)) ==> cross_from(characters@, 0) == Some((a as int, b as int)) && a < 100
            && b < 100,
        r is None ==> cross_from(characters@, 0) is None,
{
    let mut start: usize = 0;
    while start < characters.len()
        invariant
            start <= characters.len(),
            cross_from(characters@, 0) == cross_from(characters@, start as int),
        decreases characters.len() - start,
    {
        if starts_on_boundary_at(characters, start) {
            if let Some(found) = cross_tail(characters, start, 2) {
                return Some(found);
            }
            if let Some(found) = cross_tail(characters, start, 1) {
                return Some(found);
            }
        }
        start += 1;
    }
    None
}

fn cross_tail(characters: &Vec<char>, start: usize, season_length: usize) -> (r: Option<
    (u32, u32),
>)
    requires
        start <= characters.len(),
        season_length == 1 || season_length == 2,
    ensures
        r matches Some((a, b)) ==> cross_with(characters@, start as int, season_length as int)
            == Some((a as int, b as int)) && a < 100 && b < 100,
        r is None ==> cross_with(characters@, start as int, season_length as int) is None,
{
    let season = match read_digits(characters, start, season_length) {
        Some(season) => season,
        None => return None,
    };
    let position = skip_separators(characters, start + season_length);
    if !(position < characters.len() && (characters[position] == 'x' || characters[position]
        == 'X')) {
        return None;
    }
    let position = skip_separators(characters, position + 1);
    match read_episode(characters, position) {
        Some(episode) => Some((season, episode)),
        None => None,
    }
}

fn format_key(season: u32, episode: u32) -> (r: String)
    requires
        season < 100,
        episode < 100,
    ensures
        r@ == key_chars(season as int, episode as int),
{
    let characters = vec![
        'S',
        digit_to_char(season / 10),
        digit_to_char(season % 10),
        'E',
        digit_to_char(episode / 10),
        digit_to_char(episode % 10),
    ];
    let r = string_from(characters.as_slice());
    assert(r@ =~= key_chars(season as int, episode as int));
    r
}

pub(crate) fn digit_to_char(d: u32) -> (c: char)
    requires
        d < 10,
    ensures
        c == digit_char(d as int),
{
    let byte: u8 = 48u8 + d as u8;
    byte as char
}

fn starts_on_boundary_at(characters: &Vec<char>, index: usize) -> (r: bool)
    requires
        index < characters.len(),
    ensures
        r == starts_on_boundary(characters@, index as int),
{
    index == 0 || !is_ascii_alphanumeric(characters[index - 1])
}

fn ends_on_boundary_at(characters: &Vec<char>, index: usize) -> (r: bool)
    ensures
        r == ends_on_boundary(characters@, index as int),
{
    index >= characters.len() || !is_ascii_alphanumeric(characters[index])
}

fn read_digits(characters: &Vec<char>, start: usize, length: usize) -> (r: Option<u32>)
    requires
        start <= characters.len(),
        length == 1 || length == 2,
    ensures
        r matches Some(v) ==> digits_at(characters@, start as int, length as int) == Some(
            v as int,
        ) && v < 100,
        r is None ==> digits_at(characters@, start as int, length as int) is None,
{
    if length > characters.len() - start {
        return None;
    }
    let first = characters[start];
    if !is_ascii_digit(first) {
        return None;
    }
    if length == 1 {
        return Some(first as u32 - 48);
    }
    let second = characters[start + 1];
    if !is_ascii_digit(second) {
        return None;
    }
    assert forall|k: int| start <= k < start + length implies ascii_digit(
        #[trigger] characters@[k],
    ) by {
        if k != start {
            assert(k == start + 1);
        }
    }
    Some(10 * (first as u32 - 48) + (second as u32 - 48))
}

fn skip_separators(characters: &Vec<char>, index: usize) -> (r: usize)
    requires
        index <= characters.len(),
    ensures
        r as int == skip_seps(characters@, index as int),
        index <= r <= characters.len(),
{
    let mut position: usize = index;
    while position < characters.len() && (characters[position] == '-' || characters[position]
        == '_' || characters[position] == '.' || is_whitespace(characters[position]))
        invariant
            index <= position <= characters.len(),
            skip_seps(characters@, index as int) == skip_seps(characters@, position as int),
        decreases characters.len() - position,
    {
        position += 1;
    }
    position
}

// ------------------------------------------------------------- language tags

/// `word` sits at `start` in `s`, ignoring ASCII case.
pub open spec fn word_at(s: Seq<char>, start: int, word: Seq<char>) -> bool {
    0 <= start && start + word.len() <= s.len() && forall|k: int|
        0 <= k < word.len() ==> ascii_lower(#[trigger] s[start + k]) == ascii_lower(word[k])
}

pub open spec fn is_pair_separator(c: char) -> bool {
    c == '-' || c == '_' || c == '.'
}

/// The first second half, from table index `g` on, that follows the separator
/// at `separator` and ends on a boundary.
pub open spec fn second_half_from(s: Seq<char>, separator: int, g: int) -> Option<int>
    decreases language_pair_table().len() - g,
{
    if g < 0 || g >= language_pair_table().len() {
        None
    } else if word_at(s, separator + 1, language_pair_table()[g]) && ends_on_boundary(
        s,
        separator + 1 + language_pair_table()[g].len(),
    ) {
        Some(g)
    } else {
        second_half_from(s, separator, g + 1)
    }
}

/// The first pair of table indices, from first half `f` on, that reads at `start`.
pub open spec fn pair_from(s: Seq<char>, start: int, f: int) -> Option<(int, int)>
    decreases language_pair_table().len() - f,
{
    if f < 0 || f >= language_pair_table().len() {
        None
    } else {
        let word = language_pair_table()[f];
        let separator = start + word.len();
        if word_at(s, start, word) && separator < s.len() && is_pair_separator(s[separator]) {
            match second_half_from(s, separator, 0) {
                Some(g) => Some((f, g)),
                None => pair_from(s, start, f + 1),
            }
        } else {
            pair_from(s, start, f + 1)
        }
    }
}

/// The leftmost combined tag at or after `start`.
pub open spec fn pair_search(s: Seq<char>, start: int) -> Option<(int, int)>
    decreases s.len() - start,
{
    if start < 0 || start >= s.len() {
        None
    } else if starts_on_boundary(s, start) && pair_from(s, start, 0) is Some {
        pair_from(s, start, 0)
    } else {
        pair_search(s, start + 1)
    }
}

/// The first language tag among at most `steps` tokens, walking back from `i`.
pub open spec fn tag_walking_back(ts: Seq<Seq<char>>, i: int, steps: int) -> Option<Seq<char>>
    decreases steps,
{
    if steps <= 0 || i < 0 || i >= ts.len() {
        None
    } else if is_language_tag(ts[i]) {
        Some(ts[i])
    } else {
        tag_walking_back(ts, i - 1, steps - 1)
    }
}

/// Every token of `ts`, lowercased.
pub open spec fn lowered(ts: Seq<Seq<char>>) -> Seq<Seq<char>> {
    ts.map_values(|t: Seq<char>| lowercase(t))
}

/// The language a stem announces: a combined tag anywhere, else the last of
/// its final eight tokens that is a language tag.
pub open spec fn stem_language(stem: Seq<char>) -> Option<Seq<char>> {
    match pair_search(stem, 0) {
        Some((f, g)) => Some(language_pair_table()[f] + language_pair_table()[g]),
        None => {
            let ts = lowered(tokens(nfc(stem)));
            tag_walking_back(ts, ts.len() - 1, 8)
        },
    }
}

/// A combined tag reads at `j` in `s`: a first half from the pair table that
/// does not follow an ASCII letter or digit, one of `-`, `_` or `.`, and a
/// second half from the table that is not followed by one; both halves
/// compared ignoring ASCII case.
pub open spec fn combined_tag_at(s: Seq<char>, j: int, f: int, g: int) -> bool {
    let t = language_pair_table();
    &&& 0 <= f < t.len()
    &&& 0 <= g < t.len()
    &&& 0 <= j
    &&& j == 0 || !ascii_alphanumeric(s[j - 1])
    &&& j + t[f].len() + 1 + t[g].len() <= s.len()
    &&& forall|i: int| 0 <= i < t[f].len() ==> #[trigger] ascii_lower(s[j + i]) == ascii_lower(t[f][i])
    &&& s[j + t[f].len()] == '-' || s[j + t[f].len()] == '_' || s[j + t[f].len()] == '.'
    &&& forall|i: int| 0 <= i < t[g].len() ==> #[trigger] ascii_lower(s[j + t[f].len() + 1 + i]) == ascii_lower(t[g][i])
    &&& j + t[f].len() + 1 + t[g].len() == s.len() || !ascii_alphanumeric(s[j + t[f].len() + 1 + t[g].len()])
}

proof fn lemma_pair_table_letters()
    ensures
        language_pair_table().len() == 11,
        forall|i: int, m: int| 0 <= i < 11 && 0 <= m < language_pair_table()[i].len() ==> 'a' <= #[trigger] language_pair_table()[i][m] <= 'z',
{
    reveal_strlit("chs");
    reveal_strlit("cht");
    reveal_strlit("eng");
    reveal_strlit("zho");
    reveal_strlit("chi");
    reveal_strlit("zh");
    reveal_strlit("en");
    reveal_strlit("ja");
    reveal_strlit("jpn");
    reveal_strlit("ko");
    reveal_strlit("kor");
    let t = language_pair_table();
    assert forall|i: int, m: int| 0 <= i < 11 && 0 <= m < t[i].len() implies 'a' <= #[trigger] t[i][m] <= 'z' by {
        if i == 0 { assert(t[0] == "chs"@); }
        else if i == 1 { assert(t[1] == "cht"@); }
        else if i == 2 { assert(t[2] == "eng"@); }
        else if i == 3 { assert(t[3] == "zho"@); }
        else if i == 4 { assert(t[4] == "chi"@); }
        else if i == 5 { assert(t[5] == "zh"@); }
        else if i == 6 { assert(t[6] == "en"@); }
        else if i == 7 { assert(t[7] == "ja"@); }
        else if i == 8 { assert(t[8] == "jpn"@); }
        else if i == 9 { assert(t[9] == "ko"@); }
        else { assert(t[10] == "kor"@); }
    }
}

/// Two table words that both read at `start`, each followed by a character
/// that is no letter, are the same word.
proof fn lemma_same_word(s: Seq<char>, start: int, a: int, b: int)
    requires
        0 <= a < 11,
        0 <= b < 11,
        word_at(s, start, language_pair_table()[a]),
        word_at(s, start, language_pair_table()[b]),
        start + language_pair_table()[a].len() == s.len() || !(('a' <= s[start + language_pair_table()[a].len()] && s[start + language_pair_table()[a].len()] <= 'z') || ('A' <= s[start + language_pair_table()[a].len()] && s[start + language_pair_table()[a].len()] <= 'Z')),
        start + language_pair_table()[b].len() == s.len() || !(('a' <= s[start + language_pair_table()[b].len()] && s[start + language_pair_table()[b].len()] <= 'z') || ('A' <= s[start + language_pair_table()[b].len()] && s[start + language_pair_table()[b].len()] <= 'Z')),
    ensures
        language_pair_table()[a] == language_pair_table()[b],
{
    lemma_pair_table_letters();
    let t = language_pair_table();
    let la = t[a].len() as int;
    let lb = t[b].len() as int;
    if la < lb {
        assert(ascii_lower(s[start + la]) == ascii_lower(t[b][la]));
        assert('a' <= t[b][la] <= 'z');
    } else if lb < la {
        assert(ascii_lower(s[start + lb]) == ascii_lower(t[a][lb]));
        assert('a' <= t[a][lb] <= 'z');
    } else {
        assert forall|m: int| 0 <= m < la implies t[a][m] == t[b][m] by {
            assert(ascii_lower(s[start + m]) == ascii_lower(t[a][m]));
            assert(ascii_lower(s[start + m]) == ascii_lower(t[b][m]));
            assert('a' <= t[a][m] <= 'z');
            assert('a' <= t[b][m] <= 'z');
        }
        assert(t[a] =~= t[b]);
    }
}

proof fn lemma_second_half_found(s: Seq<char>, separator: int, g0: int, g: int)
    requires
        0 <= g0 <= g < 11,
        word_at(s, separator + 1, language_pair_table()[g]),
        ends_on_boundary(s, separator + 1 + language_pair_table()[g].len()),
    ensures
        second_half_from(s, separator, g0) matches Some(h) && 0 <= h < 11 && language_pair_table()[h] == language_pair_table()[g],
    decreases g - g0,
{
    lemma_pair_table_letters();
    let t = language_pair_table();
    if word_at(s, separator + 1, t[g0]) && ends_on_boundary(s, separator + 1 + t[g0].len()) {
        lemma_same_word(s, separator + 1, g0, g);
    } else {
        lemma_second_half_found(s, separator, g0 + 1, g);
    }
}

proof fn lemma_pair_found(s: Seq<char>, k: int, f0: int, f: int, g: int)
    requires
        0 <= f0 <= f,
        combined_tag_at(s, k, f, g),
    ensures
        pair_from(s, k, f0) matches Some((f2, g2)) && 0 <= f2 < 11 && 0 <= g2 < 11
            && language_pair_table()[f2] == language_pair_table()[f]
            && language_pair_table()[g2] == language_pair_table()[g],
    decreases f - f0,
{
    lemma_pair_table_letters();
    let t = language_pair_table();
    let sep = k + t[f].len();
    assert(word_at(s, k, t[f]));
    assert(word_at(s, sep + 1, t[g]));
    let word = t[f0];
    let separator = k + word.len();
    if word_at(s, k, word) && separator < s.len() && is_pair_separator(s[separator]) {
        lemma_same_word(s, k, f0, f);
        assert(separator == sep);
        lemma_second_half_found(s, sep, 0, g);
    } else {
        assert(f0 != f);
        lemma_pair_found(s, k, f0 + 1, f, g);
    }
}

proof fn lemma_second_half_sound(s: Seq<char>, separator: int, g0: int)
    requires
        0 <= g0,
    ensures
        second_half_from(s, separator, g0) matches Some(h) ==> 0 <= h < 11
            && word_at(s, separator + 1, language_pair_table()[h])
            && ends_on_boundary(s, separator + 1 + language_pair_table()[h].len()),
    decreases 11 - g0,
{
    lemma_pair_table_letters();
    if g0 < 11 {
        lemma_second_half_sound(s, separator, g0 + 1);
    }
}

proof fn lemma_pair_sound(s: Seq<char>, j: int, f0: int)
    requires
        0 <= f0,
        0 <= j,
        starts_on_boundary(s, j),
    ensures
        pair_from(s, j, f0) matches Some((f2, g2)) ==> combined_tag_at(s, j, f2, g2),
    decreases 11 - f0,
{
    lemma_pair_table_letters();
    let t = language_pair_table();
    if f0 < 11 {
        lemma_pair_sound(s, j, f0 + 1);
        let word = t[f0];
        let separator = j + word.len();
        if word_at(s, j, word) && separator < s.len() && is_pair_separator(s[separator]) {
            lemma_second_half_sound(s, separator, 0);
            if let Some(g2) = second_half_from(s, separator, 0) {
                assert forall|i: int| 0 <= i < t[f0].len() implies #[trigger] ascii_lower(s[j + i]) == ascii_lower(t[f0][i]) by {}
                assert forall|i: int| 0 <= i < t[g2].len() implies #[trigger] ascii_lower(s[j + t[f0].len() + 1 + i]) == ascii_lower(t[g2][i]) by {
                    assert(ascii_lower(s[separator + 1 + i]) == ascii_lower(t[g2][i]));
                }
            }
        }
    }
}

proof fn lemma_pair_search_finds(s: Seq<char>, j: int, k: int, f: int, g: int)
    requires
        0 <= j <= k,
        combined_tag_at(s, k, f, g),
        forall|i: int, f2: int, g2: int| 0 <= i < k ==> !#[trigger] combined_tag_at(s, i, f2, g2),
    ensures
        pair_search(s, j) matches Some((f2, g2)) && 0 <= f2 < 11 && 0 <= g2 < 11
            && language_pair_table()[f2] == language_pair_table()[f]
            && language_pair_table()[g2] == language_pair_table()[g],
    decreases k - j,
{
    lemma_pair_table_letters();
    if j < k {
        if starts_on_boundary(s, j) {
            lemma_pair_sound(s, j, 0);
            if let Some((f2, g2)) = pair_from(s, j, 0) {
                assert(combined_tag_at(s, j, f2, g2));
            }
        }
        lemma_pair_search_finds(s, j + 1, k, f, g);
    } else {
        lemma_pair_found(s, k, 0, f, g);
    }
}

/// A combined tag such as `chs.eng`, `zh-en` or `eng_chs` is the language of
/// a stem: the leftmost one, written without its separator, whatever follows
/// it and whatever single tags stand elsewhere in the stem.
pub proof fn lemma_leftmost_combined_tag(s: Seq<char>, k: int, f: int, g: int)
    requires
        combined_tag_at(s, k, f, g),
        forall|i: int, f2: int, g2: int| 0 <= i < k ==> !#[trigger] combined_tag_at(s, i, f2, g2),
    ensures
        stem_language(s) == Some(language_pair_table()[f] + language_pair_table()[g]),
{
    lemma_pair_search_finds(s, 0, k, f, g);
}

/// Find the language a subtitle stem announces, as a lowercase tag.
///
/// A combined tag such as `zh-en` wins wherever it appears and is returned with
/// its separator removed (`zhen`); otherwise the last recognisable tag near the
/// end of the stem is used. Used only to keep two subtitles for the same video
/// apart, so a miss simply falls back to a numeric suffix.
pub fn language_tag(stem: &str) -> (r: Option<String>)
    ensures
        r matches Some(tag) ==> stem_language(stem@) == Some(tag@),
        r is None ==> stem_language(stem@) is None,
{
    let characters = chars_of(stem);
    if let Some(pair) = language_pair(&characters) {
        return Some(pair);
    }
    let split = split_tokens(stem);
    let ghost ts = lowered(views(split@));
    if split.len() == 0 {
        return None;
    }
    let mut index: usize = split.len() - 1;
    let mut steps: usize = 8;
    loop
        invariant
            index < split.len(),
            1 <= steps <= 8,
            views(split@) == tokens(nfc(stem@)),
            ts == lowered(views(split@)),
            pair_search(stem@, 0) is None,
            tag_walking_back(ts, ts.len() - 1, 8) == tag_walking_back(ts, index as int, steps as int),
        decreases steps,
    {
        let lowered_token = to_lowercase(split[index].as_str());
        assert(ts[index as int] == lowered_token@);
        if is_language_token(lowered_token.as_str()) {
            return Some(lowered_token);
        }
        if index == 0 || steps == 1 {
            return None;
        }
        index -= 1;
        steps -= 1;
    }
}

fn language_pair(characters: &Vec<char>) -> (r: Option<String>)
    ensures
        r matches Some(tag) ==> pair_search(characters@, 0) matches Some((f, g)) && tag@
            == language_pair_table()[f] + language_pair_table()[g],
        r is None ==> pair_search(characters@, 0) is None,
{
    let parts = language_pair_parts();
    let mut start: usize = 0;
    while start < characters.len()
        invariant
            start <= characters.len(),
            str_views(parts@) == language_pair_table(),
            pair_search(characters@, 0) == pair_search(characters@, start as int),
        decreases characters.len() - start,
    {
        if starts_on_boundary_at(characters, start) {
            if let Some((f, g)) = pair_at(characters, &parts, start) {
                let mut tag = String::new();
                tag.append(parts[f]);
                tag.append(parts[g]);
                assert(str_views(parts@)[f as int] == parts@[f as int]@);
                assert(str_views(parts@)[g as int] == parts@[g as int]@);
                return Some(tag);
            }
        }
        start += 1;
    }
    None
}

/// The first combined tag reading at `start`, as indices into the pair table.
fn pair_at(characters: &Vec<char>, parts: &Vec<&'static str>, start: usize) -> (r: Option<
    (usize, usize),
>)
    requires
        start < characters.len(),
        str_views(parts@) == language_pair_table(),
    ensures
        r matches Some((f, g)) ==> pair_from(characters@, start as int, 0) == Some(
            (f as int, g as int),
        ) && f < parts@.len() && g < parts@.len(),
        r is None ==> pair_from(characters@, start as int, 0) is None,
{
    let mut f: usize = 0;
    while f < parts.len()
        invariant
            f <= parts.len(),
            start < characters.len(),
            str_views(parts@) == language_pair_table(),
            pair_from(characters@, start as int, 0) == pair_from(characters@, start as int, f as int),
        decreases parts.len() - f,
    {
        let first = chars_of(parts[f]);
        assert(str_views(parts@)[f as int] == first@);
        if let Some(after_first) = match_word(characters, start, &first) {
            if after_first < characters.len() && (characters[after_first] == '-'
                || characters[after_first] == '_' || characters[after_first] == '.') {
                if let Some(g) = second_half(characters, parts, after_first) {
                    return Some((f, g));
                }
            }
        }
        f += 1;
    }
    None
}

fn second_half(characters: &Vec<char>, parts: &Vec<&'static str>, separator: usize) -> (r: Option<
    usize,
>)
    requires
        separator < characters.len(),
        str_views(parts@) == language_pair_table(),
    ensures
        r matches Some(g) ==> second_half_from(characters@, separator as int, 0) == Some(g as int)
            && g < parts@.len(),
        r is None ==> second_half_from(characters@, separator as int, 0) is None,
{
    let mut g: usize = 0;
    while g < parts.len()
        invariant
            g <= parts.len(),
            separator < characters.len(),
            str_views(parts@) == language_pair_table(),
            second_half_from(characters@, separator as int, 0) == second_half_from(
                characters@,
                separator as int,
                g as int,
            ),
        decreases parts.len() - g,
    {
        let second = chars_of(parts[g]);
        assert(str_views(parts@)[g as int] == second@);
        if let Some(after_second) = match_word(characters, separator + 1, &second) {
            if ends_on_boundary_at(characters, after_second) {
                return Some(g);
            }
        }
        g += 1;
    }
    None
}

/// Match `word` case-insensitively at `start`, returning the position after it.
fn match_word(characters: &Vec<char>, start: usize, word: &Vec<char>) -> (r: Option<usize>)
    requires
        start <= characters.len(),
    ensures
        r matches Some(end) ==> word_at(characters@, start as int, word@) && end == start
            + word@.len(),
        r is None ==> !word_at(characters@, start as int, word@),
{
    let mut offset: usize = 0;
    while offset < word.len()
        invariant
            offset <= word.len(),
            start <= characters.len(),
            offset <= characters.len() - start,
            forall|k: int|
                0 <= k < offset ==> ascii_lower(#[trigger] characters@[start + k]) == ascii_lower(
                    word@[k],
                ),
        decreases word.len() - offset,
    {
        if offset == characters.len() - start {
            return None;
        }
        if !eq_ignore_ascii_case(characters[start + offset], word[offset]) {
            return None;
        }
        offset += 1;
        if offset < word.len() && offset > characters.len() - start {
            return None;
        }
    }
    Some(start + offset)
}

} // verus!
