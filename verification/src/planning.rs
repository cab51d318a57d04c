//! Deciding what should be renamed, without touching anything.
//!
//! Planning answers "what would happen"; carrying a plan out is another
//! module's job. Matching is scoped per folder: a subtitle is only ever paired
//! with a video sitting beside it.
//!
//! A folder arrives as a [`Group`]: its path, the names of everything listed in
//! it, and the videos and subtitles found there. Whether a target name is
//! already taken is answered from that listing.

use vstd::prelude::*;

use crate::names::{digit_char, digit_to_char, episode_id, episode_key, language_tag, normalize_stem, normalized, stem_language};
use crate::paths::{
    paths_equal, same_path, extension_of, final_component, join, joined_path, name_extension, name_stem, parent_path,
    path_file_name, path_parent, stem_of,
};
use crate::similarity::{Score, score_of, lemma_le_trans, CharCounts, Scratch, Target};
use vstd::seq_lib::lemma_sorted_unique;
use crate::ordering::{
    lemma_lex_le_total, lemma_map_multiset, lemma_sorted_items, lemma_sorted_keys, lemma_sorted_order_len,
    sort_order, sorted_keys, sorted_order, text_order,
};
use crate::text::{concat, ascii_lower, chars_of, eq_ignore_ascii_case, lowercase, string_from, to_lowercase, views, whitespace, is_whitespace};

verus! {

// ------------------------------------------------------------------ options

pub open spec fn video_extensions_spec() -> Seq<Seq<char>> {
    seq!["mkv"@, "mp4"@, "avi"@, "mov"@, "wmv"@, "m4v"@, "webm"@]
}

pub open spec fn subtitle_extensions_spec() -> Seq<Seq<char>> {
    seq!["ass"@, "srt"@, "ssa"@, "vtt"@, "sub"@]
}

/// The video extensions looked for when none are given.
pub fn video_extensions() -> (r: Vec<&'static str>)
    ensures
        r@.map_values(|s: &'static str| s@) == video_extensions_spec(),
{
    let r = vec!["mkv", "mp4", "avi", "mov", "wmv", "m4v", "webm"];
    assert(r@.map_values(|s: &'static str| s@) =~= video_extensions_spec());
    r
}

/// The subtitle extensions looked for when none are given.
pub fn subtitle_extensions() -> (r: Vec<&'static str>)
    ensures
        r@.map_values(|s: &'static str| s@) == subtitle_extensions_spec(),
{
    let r = vec!["ass", "srt", "ssa", "vtt", "sub"];
    assert(r@.map_values(|s: &'static str| s@) =~= subtitle_extensions_spec());
    r
}

/// Owned copies of `items`.
pub fn owned_strings(items: &Vec<&'static str>) -> (r: Vec<String>)
    ensures
        views(r@) == items@.map_values(|s: &'static str| s@),
{
    let mut out: Vec<String> = Vec::new();
    let mut index: usize = 0;
    while index < items.len()
        invariant
            index <= items.len(),
            out@.len() == index,
            forall|k: int| 0 <= k < index ==> (#[trigger] out@[k])@ == items@[k]@,
        decreases items.len() - index,
    {
        out.push(items[index].to_owned());
        index += 1;
    }
    assert(views(out@) =~= items@.map_values(|s: &'static str| s@));
    out
}

/// How far ahead of the runner-up the best fuzzy match has to be: six
/// hundredths.
///
/// Two videos that score almost the same against one subtitle mean the filenames
/// do not actually say which is which, so neither is chosen.
pub open spec fn within_margin(best: Score, runner_up: Score) -> bool {
    (best.numerator * runner_up.denominator - runner_up.numerator * best.denominator) * 100
        < 6 * best.denominator * runner_up.denominator
}

/// Whether `best` leads `runner_up` by less than the margin.
pub fn too_close(best: Score, runner_up: Score) -> (r: bool)
    requires
        best.denominator > 0,
        runner_up.denominator > 0,
    ensures
        r == within_margin(best, runner_up),
{
    let b = best.numerator as u128;
    let bd = best.denominator as u128;
    let u = runner_up.numerator as u128;
    let ud = runner_up.denominator as u128;
    proof {
        lemma_fits(b, ud);
        lemma_fits(u, bd);
        lemma_fits(bd, ud);
    }
    let lead = b * ud;
    let trail = u * bd;
    let denominator = bd * ud;
    if lead <= trail {
        // Not ahead at all, so certainly within six hundredths.
        proof {
            assert((best.numerator * runner_up.denominator - runner_up.numerator * best.denominator) * 100 <= 0) by (nonlinear_arith)
                requires
                    best.numerator * runner_up.denominator <= runner_up.numerator * best.denominator,
            ;
            assert(6 * best.denominator * runner_up.denominator > 0) by (nonlinear_arith)
                requires
                    best.denominator > 0,
                    runner_up.denominator > 0,
            ;
        }
        return true;
    }
    // 100 * gap < 6 * denominator, that is 50 * gap < 3 * denominator, worked
    // out without overflowing.
    let gap = lead - trail;
    proof {
        assert(6 * best.denominator * runner_up.denominator == 6 * (best.denominator * runner_up.denominator)) by (nonlinear_arith);
    }
    let quotient = denominator / 50;
    let remainder = denominator % 50;
    proof {
        assert(denominator == 50 * quotient + remainder);
        assert(gap * 100 < 6 * denominator <==> 50 * gap < 150 * quotient + 3 * remainder);
    }
    if gap < 3 * quotient {
        proof {
            assert(50 * gap < 150 * quotient + 3 * remainder);
        }
        true
    } else {
        let extra = gap - 3 * quotient;
        if extra >= 3 {
            proof {
                assert(50 * gap >= 150 * quotient + 150);
            }
            false
        } else {
            proof {
                assert(50 * gap == 150 * quotient + 50 * extra);
            }
            50 * extra < 3 * remainder
        }
    }
}

proof fn lemma_fits(x: u128, y: u128)
    requires
        x <= u64::MAX,
        y <= u64::MAX,
    ensures
        x * y <= u128::MAX,
{
    assert(x * y <= u64::MAX * u64::MAX) by (nonlinear_arith)
        requires
            x <= u64::MAX,
            y <= u64::MAX,
    ;
}

// ------------------------------------------------------------------ outcomes

/// Why a subtitle was paired with a video.
#[derive(Clone, Debug, PartialEq)]
pub enum MatchReason {
    /// Both filenames carry the same episode id, which settles it.
    Episode(String),
    /// The filename stems are similar enough, with the score that decided it.
    Fuzzy(Score),
}

/// Why a subtitle was left alone.
#[derive(Clone, Debug, PartialEq)]
pub enum SkipReason {
    /// No video scored high enough, or two scored too close together.
    Unmatched { best_score: Score },
    /// No video carries the episode id found in the subtitle filename.
    NoMatchingEpisode(String),
    /// Several videos in the folder claim the same episode id.
    AmbiguousEpisode(String),
    /// The subtitle is already named after its video.
    AlreadyMatches,
    /// The exact target name is taken and strict mode forbids a suffix.
    StrictCollision,
    /// The folder holds subtitles but no videos.
    NoVideo,
    /// The target name is taken and no free variant could be found.
    Collision,
}

/// A [`MatchReason`] as plain values.
pub enum MatchView {
    Episode(Seq<char>),
    Fuzzy(Score),
}

/// A [`SkipReason`] as plain values.
pub enum SkipView {
    Unmatched(Score),
    NoMatchingEpisode(Seq<char>),
    AmbiguousEpisode(Seq<char>),
    AlreadyMatches,
    StrictCollision,
    NoVideo,
    Collision,
}

impl View for MatchReason {
    type V = MatchView;

    open spec fn view(&self) -> MatchView {
        match self {
            MatchReason::Episode(key) => MatchView::Episode(key@),
            MatchReason::Fuzzy(score) => MatchView::Fuzzy(*score),
        }
    }
}

impl View for SkipReason {
    type V = SkipView;

    open spec fn view(&self) -> SkipView {
        match self {
            SkipReason::Unmatched { best_score } => SkipView::Unmatched(*best_score),
            SkipReason::NoMatchingEpisode(key) => SkipView::NoMatchingEpisode(key@),
            SkipReason::AmbiguousEpisode(key) => SkipView::AmbiguousEpisode(key@),
            SkipReason::AlreadyMatches => SkipView::AlreadyMatches,
            SkipReason::StrictCollision => SkipView::StrictCollision,
            SkipReason::NoVideo => SkipView::NoVideo,
            SkipReason::Collision => SkipView::Collision,
        }
    }
}

impl MatchReason {
    pub fn duplicate(&self) -> (r: MatchReason)
        ensures
            r@ == self@,
    {
        match self {
            MatchReason::Episode(key) => MatchReason::Episode(key.clone()),
            MatchReason::Fuzzy(score) => MatchReason::Fuzzy(*score),
        }
    }
}

/// A planned rename.
pub struct RenameOp {
    pub source: String,
    pub destination: String,
    pub reason: MatchReason,
}

/// A subtitle that stays where it is, and why.
pub struct SkippedRename {
    pub path: String,
    pub reason: SkipReason,
}

impl View for RenameOp {
    type V = (Seq<char>, Seq<char>, MatchView);

    open spec fn view(&self) -> (Seq<char>, Seq<char>, MatchView) {
        (self.source@, self.destination@, self.reason@)
    }
}

impl View for SkippedRename {
    type V = (Seq<char>, SkipView);

    open spec fn view(&self) -> (Seq<char>, SkipView) {
        (self.path@, self.reason@)
    }
}

impl RenameOp {
    pub fn duplicate(&self) -> (r: RenameOp)
        ensures
            r@ == self@,
    {
        RenameOp { source: self.source.clone(), destination: self.destination.clone(), reason: self.reason.duplicate() }
    }
}

/// The views of a list of operations.
pub open spec fn op_views(ops: Seq<RenameOp>) -> Seq<(Seq<char>, Seq<char>, MatchView)> {
    ops.map_values(|op: RenameOp| op@)
}

/// The views of a list of skipped subtitles.
pub open spec fn skip_views(skipped: Seq<SkippedRename>) -> Seq<(Seq<char>, SkipView)> {
    skipped.map_values(|s: SkippedRename| s@)
}

/// Everything a preview needs to describe one run.
pub struct RenamePlan {
    pub root: String,
    pub operations: Vec<RenameOp>,
    pub skipped: Vec<SkippedRename>,
    pub video_count: usize,
    pub subtitle_count: usize,
}

/// How a run should behave.
pub struct PlanOptions {
    pub recursive: bool,
    /// Refuse any subtitle that cannot take the plain `VideoName.ext` form.
    pub strict: bool,
    /// Allow the plain target name to replace a file already on disk.
    pub overwrite_existing: bool,
    /// Fuzzy threshold; episode-id matches ignore it.
    pub min_score: Score,
    pub video_exts: Vec<String>,
    pub sub_exts: Vec<String>,
}

/// The fuzzy threshold of the relaxed level: sixty hundredths.
pub fn relaxed_min_score() -> (r: Score)
    ensures
        r == (Score { numerator: 60, denominator: 100 }),
{
    Score { numerator: 60, denominator: 100 }
}

/// The fuzzy threshold of the balanced level, the default: seventy-two
/// hundredths.
pub fn balanced_min_score() -> (r: Score)
    ensures
        r == (Score { numerator: 72, denominator: 100 }),
{
    Score { numerator: 72, denominator: 100 }
}

/// The fuzzy threshold of the cautious level: eighty-four hundredths.
pub fn cautious_min_score() -> (r: Score)
    ensures
        r == (Score { numerator: 84, denominator: 100 }),
{
    Score { numerator: 84, denominator: 100 }
}

impl Default for PlanOptions {
    fn default() -> (r: PlanOptions)
        ensures
            !r.recursive,
            !r.strict,
            !r.overwrite_existing,
            r.min_score == (Score { numerator: 72, denominator: 100 }),
            views(r.video_exts@) == video_extensions_spec(),
            views(r.sub_exts@) == subtitle_extensions_spec(),
    {
        let videos = video_extensions();
        let subtitles = subtitle_extensions();
        PlanOptions {
            recursive: false,
            strict: false,
            overwrite_existing: false,
            min_score: balanced_min_score(),
            video_exts: owned_strings(&videos),
            sub_exts: owned_strings(&subtitles),
        }
    }
}

/// Why a real directory could not be planned.
pub enum PlanError {
    NotADirectory(String),
    Io(std::io::Error),
}

#[verifier::external_type_specification]
#[verifier::external_body]
pub struct ExIoError(std::io::Error);

/// The message an I/O error carries, from its `Display`. Nothing is stated of
/// it: the error is opaque here, and its text comes from the operating system.
#[verifier::external_body]
fn io_error_text(error: &std::io::Error) -> (r: String) {
    error.to_string()
}

impl PlanError {
    /// The error as a person reads it.
    pub fn message(&self) -> (r: String)
        ensures
            self matches PlanError::NotADirectory(path) ==> r@ == "not a directory: "@ + crate::paths::sanitized(path@),
    {
        match self {
            PlanError::NotADirectory(path) => {
                let shown = crate::paths::display(path.as_str());
                concat("not a directory: ", shown.as_str())
            },
            PlanError::Io(error) => io_error_text(error),
        }
    }
}

// ------------------------------------------------------------ extensions

/// The first position of `s` from `i` on that is not white space.
pub open spec fn first_non_space(s: Seq<char>, i: int) -> int
    decreases s.len() - i,
{
    if 0 <= i < s.len() && whitespace(s[i]) {
        first_non_space(s, i + 1)
    } else {
        i
    }
}

/// One past the last position of `s` before `j` that is not white space.
pub open spec fn end_non_space(s: Seq<char>, j: int) -> int
    decreases j,
{
    if 0 < j <= s.len() && whitespace(s[j - 1]) {
        end_non_space(s, j - 1)
    } else {
        j
    }
}

/// `s` without leading and trailing white space, as `str::trim` gives it.
pub open spec fn trimmed(s: Seq<char>) -> Seq<char> {
    let a = first_non_space(s, 0);
    let b = end_non_space(s, s.len() as int);
    if a < b {
        s.subrange(a, b)
    } else {
        seq![]
    }
}

/// `raw` without leading and trailing white space.
pub fn trim_text(raw: &str) -> (r: String)
    ensures
        r@ == trimmed(raw@),
{
    let characters = chars_of(raw);
    let length = characters.len();
    let mut start: usize = 0;
    while start < length && is_whitespace(characters[start])
        invariant
            start <= length == characters@.len(),
            characters@ == raw@,
            first_non_space(raw@, 0) == first_non_space(raw@, start as int),
        decreases length - start,
    {
        start += 1;
    }
    let mut end: usize = length;
    while end > 0 && is_whitespace(characters[end - 1])
        invariant
            end <= length == characters@.len(),
            characters@ == raw@,
            end_non_space(raw@, length as int) == end_non_space(raw@, end as int),
        decreases end,
    {
        end -= 1;
    }
    let (from, to) = if start < end { (start, end) } else { (0, 0) };
    let r = crate::paths::slice_string(&characters, from, to);
    assert(r@ =~= trimmed(raw@));
    r
}

/// The first position of `s` from `i` on that does not hold a `.`.
pub open spec fn first_non_dot(s: Seq<char>, i: int) -> int
    decreases s.len() - i,
{
    if 0 <= i < s.len() && s[i] == '.' {
        first_non_dot(s, i + 1)
    } else {
        i
    }
}

/// An extension as the user may write it, reduced to the form it is compared
/// in: trimmed, without leading dots, lowercased.
pub open spec fn extension_form(raw: Seq<char>) -> Seq<char> {
    let t = trimmed(raw);
    lowercase(t.skip(first_non_dot(t, 0)))
}

proof fn lemma_first_non_space(s: Seq<char>, i: int)
    requires
        0 <= i <= s.len(),
    ensures
        i <= first_non_space(s, i) <= s.len(),
        forall|k: int| i <= k < first_non_space(s, i) ==> whitespace(#[trigger] s[k]),
    decreases s.len() - i,
{
    if i < s.len() && whitespace(s[i]) {
        lemma_first_non_space(s, i + 1);
    }
}

proof fn lemma_end_non_space(s: Seq<char>, j: int)
    requires
        0 <= j <= s.len(),
    ensures
        0 <= end_non_space(s, j) <= j,
    decreases j,
{
    if 0 < j && whitespace(s[j - 1]) {
        lemma_end_non_space(s, j - 1);
    }
}

proof fn lemma_first_non_dot(s: Seq<char>, i: int)
    requires
        0 <= i <= s.len(),
    ensures
        i <= first_non_dot(s, i) <= s.len(),
    decreases s.len() - i,
{
    if i < s.len() && s[i] == '.' {
        lemma_first_non_dot(s, i + 1);
    }
}

/// Accept extensions with or without a leading dot, in any case.
pub fn normalize_extension(raw: &str) -> (r: String)
    ensures
        r@ == extension_form(raw@),
{
    let characters = chars_of(raw);
    let length = characters.len();
    let mut start: usize = 0;
    while start < length && is_whitespace(characters[start])
        invariant
            start <= length == characters@.len(),
            characters@ == raw@,
            first_non_space(raw@, 0) == first_non_space(raw@, start as int),
        decreases length - start,
    {
        start += 1;
    }
    let mut end: usize = length;
    while end > 0 && is_whitespace(characters[end - 1])
        invariant
            end <= length == characters@.len(),
            characters@ == raw@,
            end_non_space(raw@, length as int) == end_non_space(raw@, end as int),
        decreases end,
    {
        end -= 1;
    }
    let ghost t = trimmed(raw@);
    let (from, to) = if start < end { (start, end) } else { (0, 0) };
    assert(t =~= raw@.subrange(from as int, to as int));
    let mut skip: usize = from;
    while skip < to && characters[skip] == '.'
        invariant
            from <= skip <= to <= length == characters@.len(),
            characters@ == raw@,
            t == raw@.subrange(from as int, to as int),
            first_non_dot(t, 0) == first_non_dot(t, skip - from),
        decreases to - skip,
    {
        skip += 1;
    }
    let kept = crate::paths::slice_string(&characters, skip, to);
    assert(kept@ =~= t.skip(first_non_dot(t, 0)));
    to_lowercase(kept.as_str())
}

/// Every character of `s` is ASCII.
pub open spec fn all_ascii(s: Seq<char>) -> bool {
    forall|i: int| 0 <= i < s.len() ==> (#[trigger] s[i] as int) < 128
}

/// `a` and `b` are equal once ASCII letters are lowercased, as
/// `str::eq_ignore_ascii_case` compares them.
pub open spec fn ascii_equal(a: Seq<char>, b: Seq<char>) -> bool {
    a.len() == b.len() && forall|i: int| 0 <= i < a.len() ==> #[trigger] ascii_lower(a[i]) == ascii_lower(b[i])
}

/// Whether `e` is in `list`, which holds normalised lowercase forms: an ASCII
/// extension is compared ignoring ASCII case, any other is lowercased first.
pub open spec fn extension_listed(list: Seq<Seq<char>>, e: Seq<char>) -> bool {
    if all_ascii(e) {
        exists|k: int| 0 <= k < list.len() && #[trigger] ascii_equal(list[k], e)
    } else {
        exists|k: int| 0 <= k < list.len() && #[trigger] list[k] == lowercase(e)
    }
}

fn is_ascii_text(s: &Vec<char>) -> (r: bool)
    ensures
        r == all_ascii(s@),
{
    let mut index: usize = 0;
    while index < s.len()
        invariant
            index <= s.len(),
            forall|i: int| 0 <= i < index ==> (#[trigger] s@[i] as int) < 128,
        decreases s.len() - index,
    {
        if s[index] >= '\u{80}' {
            return false;
        }
        index += 1;
    }
    true
}

fn same_ignoring_ascii_case(a: &Vec<char>, b: &Vec<char>) -> (r: bool)
    ensures
        r == ascii_equal(a@, b@),
{
    if a.len() != b.len() {
        return false;
    }
    let mut index: usize = 0;
    while index < a.len()
        invariant
            index <= a.len() == b.len(),
            forall|i: int| 0 <= i < index ==> #[trigger] ascii_lower(a@[i]) == ascii_lower(b@[i]),
        decreases a.len() - index,
    {
        if !eq_ignore_ascii_case(a[index], b[index]) {
            return false;
        }
        index += 1;
    }
    true
}

/// Whether `extension` is in `list`, which holds normalised lowercase forms.
///
/// The lists are a handful of entries, so a scan beats hashing, and the ASCII
/// path avoids lowercasing every filename's extension into a fresh string.
pub fn extension_matches(list: &Vec<String>, extension: &str) -> (r: bool)
    ensures
        r == extension_listed(views(list@), extension@),
{
    let e = chars_of(extension);
    if is_ascii_text(&e) {
        let mut k: usize = 0;
        while k < list.len()
            invariant
                k <= list.len(),
                e@ == extension@,
                all_ascii(extension@),
                forall|m: int| 0 <= m < k ==> !#[trigger] ascii_equal(views(list@)[m], extension@),
            decreases list.len() - k,
        {
            let candidate = chars_of(list[k].as_str());
            if same_ignoring_ascii_case(&candidate, &e) {
                assert(ascii_equal(views(list@)[k as int], extension@));
                assert(views(list@).len() == list@.len());
                assert(all_ascii(extension@));
                return true;
            }
            k += 1;
        }
        proof {
            if extension_listed(views(list@), extension@) {
                let m = choose|m: int| 0 <= m < views(list@).len() && #[trigger] ascii_equal(views(list@)[m], extension@);
                assert(!ascii_equal(views(list@)[m], extension@));
            }
        }
        false
    } else {
        let lowered = to_lowercase(extension);
        let mut k: usize = 0;
        while k < list.len()
            invariant
                k <= list.len(),
                lowered@ == lowercase(extension@),
                !all_ascii(extension@),
                forall|m: int| 0 <= m < k ==> #[trigger] views(list@)[m] != lowercase(extension@),
            decreases list.len() - k,
        {
            if list[k] == lowered {
                assert(views(list@)[k as int] == lowercase(extension@));
                assert(views(list@).len() == list@.len());
                assert(!all_ascii(extension@));
                return true;
            }
            k += 1;
        }
        proof {
            if extension_listed(views(list@), extension@) {
                let m = choose|m: int| 0 <= m < views(list@).len() && #[trigger] views(list@)[m] == lowercase(extension@);
                assert(views(list@)[m] != lowercase(extension@));
            }
        }
        false
    }
}

/// Which bucket a file goes in.
#[derive(Clone, Copy, Debug, PartialEq, Eq, Structural)]
pub enum FileKind {
    Video,
    Subtitle,
}

/// The bucket a file called `name` goes in, by its extension, if any.
pub open spec fn kind_of(videos: Seq<Seq<char>>, subtitles: Seq<Seq<char>>, name: Seq<char>) -> Option<FileKind> {
    match name_extension(name) {
        Some(e) => if extension_listed(videos, e) {
            Some(FileKind::Video)
        } else if extension_listed(subtitles, e) {
            Some(FileKind::Subtitle)
        } else {
            None
        },
        None => None,
    }
}

/// The extension rules, normalised once instead of per file.
pub struct Scan {
    pub video_exts: Vec<String>,
    pub sub_exts: Vec<String>,
    pub recursive: bool,
}

/// Each extension of `list` in the form it is compared in.
pub open spec fn extension_forms(list: Seq<Seq<char>>) -> Seq<Seq<char>> {
    list.map_values(|e: Seq<char>| extension_form(e))
}

fn normalize_all(list: &Vec<String>) -> (r: Vec<String>)
    ensures
        views(r@) == extension_forms(views(list@)),
{
    let mut out: Vec<String> = Vec::new();
    let mut k: usize = 0;
    while k < list.len()
        invariant
            k <= list.len(),
            out@.len() == k,
            forall|m: int| 0 <= m < k ==> (#[trigger] out@[m])@ == extension_form(list@[m]@),
        decreases list.len() - k,
    {
        out.push(normalize_extension(list[k].as_str()));
        k += 1;
    }
    assert(views(out@) =~= extension_forms(views(list@)));
    out
}

impl Scan {
    pub fn new(options: &PlanOptions) -> (r: Scan)
        ensures
            views(r.video_exts@) == extension_forms(views(options.video_exts@)),
            views(r.sub_exts@) == extension_forms(views(options.sub_exts@)),
            r.recursive == options.recursive,
    {
        Scan {
            video_exts: normalize_all(&options.video_exts),
            sub_exts: normalize_all(&options.sub_exts),
            recursive: options.recursive,
        }
    }

    /// The bucket a file called `name` goes in, if any.
    pub fn classify(&self, name: &str) -> (r: Option<FileKind>)
        ensures
            r == kind_of(views(self.video_exts@), views(self.sub_exts@), name@),
    {
        match extension_of(name) {
            Some(extension) => if extension_matches(&self.video_exts, extension.as_str()) {
                Some(FileKind::Video)
            } else if extension_matches(&self.sub_exts, extension.as_str()) {
                Some(FileKind::Subtitle)
            } else {
                None
            },
            None => None,
        }
    }
}

// ------------------------------------------------------------ candidates

/// A file worth considering, with the parts matching needs precomputed.
pub struct Candidate {
    path: String,
    name: String,
    /// The comparable form of the stem, as characters: fuzzy matching walks it
    /// element by element.
    stem_norm: Vec<char>,
    episode_key: Option<String>,
}

/// A [`Candidate`] as plain values.
pub struct CandidateView {
    pub path: Seq<char>,
    pub name: Seq<char>,
    pub stem: Seq<char>,
    pub key: Option<Seq<char>>,
}

/// The view of an optional string.
pub open spec fn opt_view(o: Option<String>) -> Option<Seq<char>> {
    match o {
        Some(s) => Some(s@),
        None => None,
    }
}

impl View for Candidate {
    type V = CandidateView;

    closed spec fn view(&self) -> CandidateView {
        CandidateView {
            path: self.path@,
            name: self.name@,
            stem: self.stem_norm@,
            key: opt_view(self.episode_key),
        }
    }
}

/// The views of a list of candidates.
pub open spec fn candidate_views(cs: Seq<Candidate>) -> Seq<CandidateView> {
    cs.map_values(|c: Candidate| c@)
}

impl Candidate {
    /// The file at `path`, whose own name is `name`.
    pub fn new(path: &str, name: &str) -> (r: Candidate)
        ensures
            r@ == (CandidateView {
                path: path@,
                name: name@,
                stem: normalized(name_stem(name@)),
                key: episode_id(name@),
            }),
    {
        let stem = stem_of(name);
        let stem_norm = normalize_stem(stem.as_str());
        let key = episode_key(name);
        let r = Candidate {
            path: path.to_owned(),
            name: name.to_owned(),
            stem_norm: chars_of(stem_norm.as_str()),
            episode_key: key,
        };
        assert(opt_view(r.episode_key) == episode_id(name@));
        r
    }

    pub fn path(&self) -> (r: &str)
        ensures
            r@ == self@.path,
    {
        self.path.as_str()
    }

    pub fn name(&self) -> (r: &str)
        ensures
            r@ == self@.name,
    {
        self.name.as_str()
    }

    pub fn stem_norm(&self) -> (r: &Vec<char>)
        ensures
            r@ == self@.stem,
    {
        &self.stem_norm
    }

    pub fn episode_key(&self) -> (r: &Option<String>)
        ensures
            opt_view(*r) == self@.key,
    {
        &self.episode_key
    }
}

/// One folder's worth of candidates, with the names of everything listed in it.
///
/// Matching never crosses a folder boundary, so a group is a self-contained unit
/// of work.
pub struct Group {
    directory: String,
    videos: Vec<Candidate>,
    subtitles: Vec<Candidate>,
    entries: Vec<String>,
}

/// A [`Group`] as plain values.
pub struct GroupView {
    pub directory: Seq<char>,
    pub videos: Seq<CandidateView>,
    pub subtitles: Seq<CandidateView>,
    pub entries: Seq<Seq<char>>,
}

impl View for Group {
    type V = GroupView;

    closed spec fn view(&self) -> GroupView {
        GroupView {
            directory: self.directory@,
            videos: candidate_views(self.videos@),
            subtitles: candidate_views(self.subtitles@),
            entries: views(self.entries@),
        }
    }
}

impl Group {
    /// An empty group for the folder at `directory`.
    pub fn new(directory: &str) -> (r: Group)
        ensures
            r@ == (GroupView { directory: directory@, videos: seq![], subtitles: seq![], entries: seq![] }),
    {
        let r = Group { directory: directory.to_owned(), videos: Vec::new(), subtitles: Vec::new(), entries: Vec::new() };
        assert(r@.videos =~= seq![]);
        assert(r@.subtitles =~= seq![]);
        assert(r@.entries =~= seq![]);
        r
    }

    /// Record that something called `name` is listed in the folder.
    pub fn add_entry(&mut self, name: &str)
        ensures
            final(self)@ == (GroupView { entries: old(self)@.entries.push(name@), ..old(self)@ }),
    {
        self.entries.push(name.to_owned());
        assert(views(self.entries@) =~= old(self)@.entries.push(name@));
    }

    /// Add a video or a subtitle.
    pub fn add(&mut self, kind: FileKind, candidate: Candidate)
        ensures
            kind == FileKind::Video ==> final(self)@ == (GroupView { videos: old(self)@.videos.push(candidate@), ..old(self)@ }),
            kind == FileKind::Subtitle ==> final(self)@ == (GroupView { subtitles: old(self)@.subtitles.push(candidate@), ..old(self)@ }),
    {
        let ghost c = candidate@;
        match kind {
            FileKind::Video => {
                self.videos.push(candidate);
                assert(candidate_views(self.videos@) =~= old(self)@.videos.push(c));
            },
            FileKind::Subtitle => {
                self.subtitles.push(candidate);
                assert(candidate_views(self.subtitles@) =~= old(self)@.subtitles.push(c));
            },
        }
    }

    pub fn directory(&self) -> (r: &str)
        ensures
            r@ == self@.directory,
    {
        self.directory.as_str()
    }

    pub fn video_count(&self) -> (r: usize)
        ensures
            r == self@.videos.len(),
    {
        self.videos.len()
    }

    pub fn subtitle_count(&self) -> (r: usize)
        ensures
            r == self@.subtitles.len(),
    {
        self.subtitles.len()
    }

    pub fn is_empty(&self) -> (r: bool)
        ensures
            r == (self@.videos.len() == 0 && self@.subtitles.len() == 0),
    {
        self.videos.len() == 0 && self.subtitles.len() == 0
    }
}

impl Scan {
    /// Put the file at `path`, called `name`, in the bucket its extension calls
    /// for, or drop it.
    pub fn classify_into(&self, path: &str, name: &str, group: &mut Group)
        ensures
            match kind_of(views(self.video_exts@), views(self.sub_exts@), name@) {
                Some(FileKind::Video) => final(group)@ == (GroupView {
                    videos: old(group)@.videos.push(Candidate::new_view(path@, name@)),
                    ..old(group)@
                }),
                Some(FileKind::Subtitle) => final(group)@ == (GroupView {
                    subtitles: old(group)@.subtitles.push(Candidate::new_view(path@, name@)),
                    ..old(group)@
                }),
                None => final(group)@ == old(group)@,
            },
    {
        match self.classify(name) {
            Some(kind) => group.add(kind, Candidate::new(path, name)),
            None => {},
        }
    }
}

impl Candidate {
    /// The view of the candidate for the file at `path` called `name`.
    pub open spec fn new_view(path: Seq<char>, name: Seq<char>) -> CandidateView {
        CandidateView { path, name, stem: normalized(name_stem(name)), key: episode_id(name) }
    }
}

// ------------------------------------------------------------ episode ids

/// How many of `vids` carry the episode id `key`.
pub open spec fn holders(vids: Seq<CandidateView>, key: Seq<char>) -> nat
    decreases vids.len(),
{
    if vids.len() == 0 {
        0
    } else {
        holders(vids.drop_last(), key) + if vids.last().key == Some(key) {
            1nat
        } else {
            0nat
        }
    }
}

/// The position of the last of `vids` that carries `key`, or -1.
pub open spec fn holder(vids: Seq<CandidateView>, key: Seq<char>) -> int
    decreases vids.len(),
{
    if vids.len() == 0 {
        -1
    } else if vids.last().key == Some(key) {
        vids.len() - 1
    } else {
        holder(vids.drop_last(), key)
    }
}

/// What the episode id `key` of a subtitle decides among `vids`: an id carried
/// by one video names it; one carried by several identifies none of them.
pub open spec fn episode_verdict(vids: Seq<CandidateView>, key: Seq<char>) -> Result<(int, MatchView), SkipView> {
    if holders(vids, key) >= 2 {
        Err(SkipView::AmbiguousEpisode(key))
    } else if holders(vids, key) == 1 {
        Ok((holder(vids, key), MatchView::Episode(key)))
    } else {
        Err(SkipView::NoMatchingEpisode(key))
    }
}

proof fn lemma_holders(vids: Seq<CandidateView>, key: Seq<char>)
    ensures
        holders(vids, key) > 0 <==> exists|i: int| 0 <= i < vids.len() && #[trigger] vids[i].key == Some(key),
        holders(vids, key) > 0 ==> 0 <= holder(vids, key) < vids.len() && vids[holder(vids, key)].key == Some(key),
    decreases vids.len(),
{
    if vids.len() > 0 {
        let rest = vids.drop_last();
        lemma_holders(rest, key);
        if exists|i: int| 0 <= i < rest.len() && #[trigger] rest[i].key == Some(key) {
            let i = choose|i: int| 0 <= i < rest.len() && #[trigger] rest[i].key == Some(key);
            assert(vids[i].key == Some(key));
        }
        if exists|i: int| 0 <= i < vids.len() && #[trigger] vids[i].key == Some(key) {
            let i = choose|i: int| 0 <= i < vids.len() && #[trigger] vids[i].key == Some(key);
            if i < vids.len() - 1 {
                assert(rest[i].key == Some(key));
            }
        }
        if holders(rest, key) > 0 {
            assert(vids[holder(rest, key)] == rest[holder(rest, key)]);
        }
    }
}

proof fn lemma_holders_push(vids: Seq<CandidateView>, v: CandidateView, key: Seq<char>)
    ensures
        holders(vids.push(v), key) == holders(vids, key) + if v.key == Some(key) {
            1nat
        } else {
            0nat
        },
        holder(vids.push(v), key) == if v.key == Some(key) {
            vids.len() as int
        } else {
            holder(vids, key)
        },
{
    assert(vids.push(v).drop_last() =~= vids);
}

/// What a lookup in the episode index finds.
pub enum Lookup {
    Unique(usize),
    Ambiguous,
    Missing,
}

/// The index's entries as plain values.
pub open spec fn entry_views(entries: Seq<(String, usize, bool)>) -> Seq<(Seq<char>, usize, bool)> {
    entries.map_values(|e: (String, usize, bool)| (e.0@, e.1, e.2))
}

/// `entries` records, for each episode id that `vids` carry, the last video
/// carrying it and whether several do.
pub open spec fn index_ok(entries: Seq<(Seq<char>, usize, bool)>, vids: Seq<CandidateView>) -> bool {
    &&& forall|m: int| 0 <= m < entries.len() ==> {
        &&& holders(vids, (#[trigger] entries[m]).0) >= 1
        &&& entries[m].2 == (holders(vids, entries[m].0) >= 2)
        &&& entries[m].1 as int == holder(vids, entries[m].0)
    }
    &&& forall|j: int| 0 <= j < vids.len() && (#[trigger] vids[j]).key is Some ==> exists|m: int| 0 <= m < entries.len() && Some(#[trigger] entries[m].0) == vids[j].key
    &&& forall|m1: int, m2: int| 0 <= m1 < m2 < entries.len() ==> (#[trigger] entries[m1]).0 != (#[trigger] entries[m2]).0
}

fn find_entry(entries: &Vec<(String, usize, bool)>, key: &String) -> (r: Option<usize>)
    ensures
        match r {
            Some(m) => m < entries@.len() && entry_views(entries@)[m as int].0 == key@,
            None => forall|m: int| 0 <= m < entries@.len() ==> (#[trigger] entry_views(entries@)[m]).0 != key@,
        },
{
    let mut m: usize = 0;
    while m < entries.len()
        invariant
            m <= entries@.len(),
            forall|q: int| 0 <= q < m ==> (#[trigger] entry_views(entries@)[q]).0 != key@,
        decreases entries.len() - m,
    {
        if entries[m].0 == *key {
            return Some(m);
        }
        m += 1;
    }
    None
}

/// Index the episode ids of `vids`.
fn episode_index(vids: &Vec<Candidate>) -> (r: Vec<(String, usize, bool)>)
    ensures
        index_ok(entry_views(r@), candidate_views(vids@)),
{
    let ghost all = candidate_views(vids@);
    let mut entries: Vec<(String, usize, bool)> = Vec::new();
    let mut j: usize = 0;
    while j < vids.len()
        invariant
            j <= vids@.len(),
            all == candidate_views(vids@),
            index_ok(entry_views(entries@), all.take(j as int)),
        decreases vids.len() - j,
    {
        let ghost prefix = all.take(j as int);
        let ghost v = all[j as int];
        assert(all.take(j + 1) =~= prefix.push(v));
        match vids[j].episode_key() {
            Some(key) => {
                proof {
                    assert forall|k: Seq<char>| true implies #[trigger] holders(all.take(j + 1), k) == holders(prefix, k) + if v.key == Some(k) { 1nat } else { 0nat } && holder(all.take(j + 1), k) == if v.key == Some(k) { j as int } else { holder(prefix, k) } by {
                        lemma_holders_push(prefix, v, k);
                    }
                }
                match find_entry(&entries, key) {
                    Some(m) => {
                        let ghost before = entry_views(entries@);
                        let name = entries[m].0.clone();
                        entries.set(m, (name, j, true));
                        proof {
                            let after = entry_views(entries@);
                            assert forall|q: int| 0 <= q < after.len() implies {
                                &&& holders(all.take(j + 1), (#[trigger] after[q]).0) >= 1
                                &&& after[q].2 == (holders(all.take(j + 1), after[q].0) >= 2)
                                &&& after[q].1 as int == holder(all.take(j + 1), after[q].0)
                            } by {
                                if q != m {
                                    assert(after[q] == before[q]);
                                    assert(before[q].0 != before[m as int].0);
                                } else {
                                    assert(before[q].0 == key@);
                                }
                            }
                            assert forall|m1: int, m2: int| 0 <= m1 < m2 < after.len() implies (#[trigger] after[m1]).0 != (#[trigger] after[m2]).0 by {
                                assert(after[m1].0 == before[m1].0);
                                assert(after[m2].0 == before[m2].0);
                            }
                            assert forall|i: int| 0 <= i < j + 1 && (#[trigger] all.take(j + 1)[i]).key is Some implies exists|q: int| 0 <= q < after.len() && Some(#[trigger] after[q].0) == all.take(j + 1)[i].key by {
                                if i == j {
                                    assert(after[m as int].0 == key@);
                                } else {
                                    assert(all.take(j + 1)[i] == prefix[i]);
                                    let q = choose|q: int| 0 <= q < before.len() && Some(#[trigger] before[q].0) == prefix[i].key;
                                    assert(after[q].0 == before[q].0);
                                }
                            }
                        }
                    },
                    None => {
                        let ghost before = entry_views(entries@);
                        proof {
                            lemma_holders(prefix, key@);
                            if holders(prefix, key@) > 0 {
                                let i = choose|i: int| 0 <= i < prefix.len() && #[trigger] prefix[i].key == Some(key@);
                                let q = choose|q: int| 0 <= q < before.len() && Some(#[trigger] before[q].0) == prefix[i].key;
                                assert(before[q].0 != key@);
                            }
                        }
                        entries.push((key.clone(), j, false));
                        proof {
                            let after = entry_views(entries@);
                            assert forall|q: int| 0 <= q < after.len() implies {
                                &&& holders(all.take(j + 1), (#[trigger] after[q]).0) >= 1
                                &&& after[q].2 == (holders(all.take(j + 1), after[q].0) >= 2)
                                &&& after[q].1 as int == holder(all.take(j + 1), after[q].0)
                            } by {
                                if q < before.len() {
                                    assert(after[q] == before[q]);
                                }
                            }
                            assert forall|m1: int, m2: int| 0 <= m1 < m2 < after.len() implies (#[trigger] after[m1]).0 != (#[trigger] after[m2]).0 by {
                                if m2 < before.len() {
                                    assert(after[m1] == before[m1]);
                                    assert(after[m2] == before[m2]);
                                } else {
                                    assert(after[m1] == before[m1]);
                                    assert(before[m1].0 != key@);
                                }
                            }
                            assert forall|i: int| 0 <= i < j + 1 && (#[trigger] all.take(j + 1)[i]).key is Some implies exists|q: int| 0 <= q < after.len() && Some(#[trigger] after[q].0) == all.take(j + 1)[i].key by {
                                if i == j {
                                    assert(after[before.len() as int].0 == key@);
                                } else {
                                    assert(all.take(j + 1)[i] == prefix[i]);
                                    let q = choose|q: int| 0 <= q < before.len() && Some(#[trigger] before[q].0) == prefix[i].key;
                                    assert(after[q].0 == before[q].0);
                                }
                            }
                        }
                    },
                }
            },
            None => {
                proof {
                    let es = entry_views(entries@);
                    assert forall|q: int| 0 <= q < es.len() implies {
                        &&& holders(all.take(j + 1), (#[trigger] es[q]).0) >= 1
                        &&& es[q].2 == (holders(all.take(j + 1), es[q].0) >= 2)
                        &&& es[q].1 as int == holder(all.take(j + 1), es[q].0)
                    } by {
                        lemma_holders_push(prefix, v, es[q].0);
                    }
                    assert forall|i: int| 0 <= i < j + 1 && (#[trigger] all.take(j + 1)[i]).key is Some implies exists|q: int| 0 <= q < es.len() && Some(#[trigger] es[q].0) == all.take(j + 1)[i].key by {
                        assert(all.take(j + 1)[i] == prefix[i]);
                    }
                }
            },
        }
        j += 1;
    }
    assert(all.take(j as int) =~= all);
    entries
}

/// Look `key` up in an index of `vids`.
fn lookup_episode(entries: &Vec<(String, usize, bool)>, key: &String, Ghost(vids): Ghost<Seq<CandidateView>>) -> (r: Lookup)
    requires
        index_ok(entry_views(entries@), vids),
    ensures
        match r {
            Lookup::Unique(i) => holders(vids, key@) == 1 && i as int == holder(vids, key@),
            Lookup::Ambiguous => holders(vids, key@) >= 2,
            Lookup::Missing => holders(vids, key@) == 0,
        },
{
    match find_entry(entries, key) {
        Some(m) => {
            assert(entry_views(entries@)[m as int].0 == key@);
            if entries[m].2 {
                Lookup::Ambiguous
            } else {
                Lookup::Unique(entries[m].1)
            }
        },
        None => {
            proof {
                lemma_holders(vids, key@);
                if holders(vids, key@) > 0 {
                    let i = choose|i: int| 0 <= i < vids.len() && #[trigger] vids[i].key == Some(key@);
                    let q = choose|q: int| 0 <= q < entry_views(entries@).len() && Some(#[trigger] entry_views(entries@)[q].0) == vids[i].key;
                }
            }
            Lookup::Missing
        },
    }
}

// ------------------------------------------------------------ fuzzy matching

/// The best video so far and the runner-up's score, after looking at the first
/// `n` of `vids` in order: a video takes the lead only by scoring strictly
/// higher, and a zero score names no video. A video with an empty stem is not
/// scored, nor one whose stem and the subtitle's together are too long for a
/// score to hold their length.
pub open spec fn best_fold(stem: Seq<char>, vids: Seq<CandidateView>, n: int) -> (Option<(Score, int)>, Score)
    decreases n,
{
    if n <= 0 {
        (None, Score { numerator: 0, denominator: 1 })
    } else {
        let (best, runner_up) = best_fold(stem, vids, n - 1);
        let v = vids[n - 1];
        if v.stem.len() == 0 || stem.len() + v.stem.len() > usize::MAX {
            (best, runner_up)
        } else {
            let s = score_of(stem, v.stem);
            match best {
                Some((b, i)) => if b.lt(s) {
                    (Some((s, n - 1)), b)
                } else if runner_up.lt(s) {
                    (best, s)
                } else {
                    (best, runner_up)
                },
                None => if s.numerator > 0 {
                    (Some((s, n - 1)), runner_up)
                } else {
                    (best, runner_up)
                },
            }
        }
    }
}

/// The one video that clearly fits a subtitle with normalised stem `stem`, and
/// the best score, which is reported even when nothing is chosen.
///
/// The best video must reach `min_score` and lead the runner-up by the margin;
/// an empty stem, or no video with a nonzero score, chooses nothing.
pub open spec fn fuzzy_choice(stem: Seq<char>, vids: Seq<CandidateView>, min_score: Score) -> (Option<int>, Score) {
    if stem.len() == 0 {
        (None, Score { numerator: 0, denominator: 1 })
    } else {
        let (best, runner_up) = best_fold(stem, vids, vids.len() as int);
        match best {
            Some((b, i)) => if b.lt(min_score) || within_margin(b, runner_up) {
                (None, b)
            } else {
                (Some(i), b)
            },
            None => (None, Score { numerator: 0, denominator: 1 }),
        }
    }
}

/// The targets index the stems of `vids`, one each, in order.
pub open spec fn targets_for(targets: Seq<Target>, vids: Seq<CandidateView>) -> bool {
    &&& targets.len() == vids.len()
    &&& forall|k: int| 0 <= k < targets.len() ==> (#[trigger] targets[k]).wf() && targets[k]@ == vids[k].stem
}

/// Index every video stem for fuzzy matching, once per folder.
///
/// Skipped entirely when every subtitle in the folder settles on an episode id,
/// which is the common case for a tidy library.
fn fuzzy_index(subtitles: &Vec<Candidate>, videos: &Vec<Candidate>) -> (r: Vec<Target>)
    ensures
        (exists|i: int| 0 <= i < subtitles@.len() && (#[trigger] candidate_views(subtitles@)[i]).key is None) ==> targets_for(r@, candidate_views(videos@)),
{
    let mut wanted = false;
    let mut i: usize = 0;
    while i < subtitles.len()
        invariant
            i <= subtitles@.len(),
            wanted == exists|m: int| 0 <= m < i && (#[trigger] candidate_views(subtitles@)[m]).key is None,
        decreases subtitles.len() - i,
    {
        if subtitles[i].episode_key().is_none() {
            assert(candidate_views(subtitles@)[i as int].key is None);
            wanted = true;
        }
        i += 1;
    }
    let mut targets: Vec<Target> = Vec::new();
    if !wanted {
        return targets;
    }
    let mut k: usize = 0;
    while k < videos.len()
        invariant
            k <= videos@.len(),
            targets@.len() == k,
            forall|m: int| 0 <= m < k ==> (#[trigger] targets@[m]).wf() && targets@[m]@ == candidate_views(videos@)[m].stem,
        decreases videos.len() - k,
    {
        targets.push(Target::new(videos[k].stem_norm().as_slice()));
        k += 1;
    }
    targets
}

/// Pick the one video that clearly fits a subtitle whose normalised stem is
/// `stem`, with its score.
///
/// Returns the best score even when nothing is chosen, so a preview can show
/// how close the near miss was.
fn choose_unique_best(
    stem: &Vec<char>,
    videos: &Vec<Candidate>,
    targets: &Vec<Target>,
    min_score: Score,
    scratch: &mut Scratch,
) -> (r: (Option<usize>, Score))
    requires
        min_score.denominator > 0,
        targets_for(targets@, candidate_views(videos@)),
        old(scratch).is_clean(),
    ensures
        final(scratch).is_clean(),
        (match r.0 {
            Some(i) => Some(i as int),
            None => None,
        }, r.1) == fuzzy_choice(stem@, candidate_views(videos@), min_score),
{
    let ghost vids = candidate_views(videos@);
    if stem.len() == 0 {
        return (None, Score::zero());
    }
    let counts = CharCounts::new(stem.as_slice());
    let mut best: Option<(Score, usize)> = None;
    let mut runner_up = Score::zero();
    let mut k: usize = 0;
    while k < targets.len()
        invariant
            k <= targets@.len(),
            vids == candidate_views(videos@),
            targets_for(targets@, vids),
            stem@.len() > 0,
            stem@.len() == stem.len(),
            counts.wf(),
            counts@ == stem@,
            scratch.is_clean(),
            (match best {
                Some((b, i)) => Some((b, i as int)),
                None => None,
            }, runner_up) == best_fold(stem@, vids, k as int),
            runner_up.denominator > 0,
            best is None ==> runner_up == (Score { numerator: 0, denominator: 1 }),
            best matches Some((b, i)) ==> b.denominator > 0 && runner_up.le(b),
        decreases targets.len() - k,
    {
        let target = &targets[k];
        let ghost v = vids[k as int];
        assert(target@ == v.stem);
        if !target.is_empty() && stem.len() <= usize::MAX - target.len() {
            let bound = target.ratio_bound(&counts);
            if !bound.at_most(&runner_up) {
                let score = target.ratio(stem.as_slice(), scratch);
                assert(score.denominator > 0);
                match best {
                    Some((b, i)) => {
                        if b.less_than(&score) {
                            runner_up = b;
                            best = Some((score, k));
                        } else if runner_up.less_than(&score) {
                            runner_up = score;
                        }
                    },
                    None => {
                        // A zero score names no video.
                        if score.numerator > 0 {
                            proof {
                                assert(score.numerator * runner_up.denominator == score.numerator) by (nonlinear_arith)
                                    requires
                                        runner_up.denominator == 1,
                                ;
                                assert(runner_up.numerator * score.denominator == 0) by (nonlinear_arith)
                                    requires
                                        runner_up.numerator == 0,
                                ;
                            }
                            best = Some((score, k));
                        }
                    },
                }
                assert((match best {
                    Some((b, i)) => Some((b, i as int)),
                    None => None,
                }, runner_up) == best_fold(stem@, vids, k + 1));
            } else {
                proof {
                    crate::similarity::lemma_score_within_bound(stem@, v.stem);
                    let s = score_of(stem@, v.stem);
                    assert(s.denominator == stem@.len() + v.stem.len());
                    assert(bound.denominator == stem@.len() + v.stem.len());
                    assert(s.le(bound));
                    assert(bound.le(runner_up));
                    crate::similarity::lemma_le_trans(s, bound, runner_up);
                    assert(s.le(runner_up));
                    assert(v.stem.len() > 0);
                    let previous = best_fold(stem@, vids, k as int);
                    assert(best_fold(stem@, vids, k + 1) == match previous.0 {
                        Some((b, i)) => if b.lt(s) {
                            (Some((s, k as int)), b)
                        } else if previous.1.lt(s) {
                            (previous.0, s)
                        } else {
                            previous
                        },
                        None => if s.numerator > 0 {
                            (Some((s, k as int)), previous.1)
                        } else {
                            previous
                        },
                    });
                    match best {
                        Some((b, i)) => {
                            crate::similarity::lemma_le_trans(s, runner_up, b);
                            assert(!b.lt(s));
                            assert(!runner_up.lt(s));
                        },
                        None => {
                            assert(s.numerator * runner_up.denominator == s.numerator) by (nonlinear_arith)
                                requires
                                    runner_up.denominator == 1,
                            ;
                            assert(runner_up.numerator * s.denominator == 0) by (nonlinear_arith)
                                requires
                                    runner_up.numerator == 0,
                            ;
                            assert(s.numerator == 0);
                        },
                    }
                }
                assert((match best {
                    Some((b, i)) => Some((b, i as int)),
                    None => None,
                }, runner_up) == best_fold(stem@, vids, k + 1));
            }
        } else {
            assert((match best {
                Some((b, i)) => Some((b, i as int)),
                None => None,
            }, runner_up) == best_fold(stem@, vids, k + 1));
        }
        k += 1;
    }
    match best {
        Some((b, i)) => {
            if b.less_than(&min_score) || too_close(b, runner_up) {
                (None, b)
            } else {
                (Some(i), b)
            }
        },
        None => (None, Score::zero()),
    }
}

// ------------------------------------------------------------ destinations

/// `a.b`.
pub open spec fn dot_join(a: Seq<char>, b: Seq<char>) -> Seq<char> {
    a + seq!['.'] + b
}

/// The decimal digits of `n`.
pub open spec fn decimal(n: nat) -> Seq<char>
    decreases n,
{
    if n < 10 {
        seq![digit_char(n as int)]
    } else {
        decimal(n / 10).push(digit_char((n % 10) as int))
    }
}

/// The name is taken: planned for another subtitle already, or present in the
/// folder and not to be overwritten.
pub open spec fn taken(name: Seq<char>, planned: Seq<Seq<char>>, entries: Seq<Seq<char>>, overwrite: bool) -> bool {
    planned.contains(name) || (!overwrite && entries.contains(name))
}

/// The name is free for the subtitle called `own`: renaming a file onto its own
/// name is no collision.
pub open spec fn free_for(name: Seq<char>, own: Seq<char>, planned: Seq<Seq<char>>, entries: Seq<Seq<char>>, overwrite: bool) -> bool {
    name == own || !taken(name, planned, entries, overwrite)
}

/// The first free `stem.n.ext` for `n` from `from` up to 999.
pub open spec fn first_free_number(
    stem: Seq<char>,
    ext: Seq<char>,
    own: Seq<char>,
    planned: Seq<Seq<char>>,
    entries: Seq<Seq<char>>,
    overwrite: bool,
    from: int,
) -> Option<Seq<char>>
    decreases 1000 - from,
{
    if from >= 1000 || from < 0 {
        None
    } else {
        let numbered = dot_join(dot_join(stem, decimal(from as nat)), ext);
        if free_for(numbered, own, planned, entries, overwrite) {
            Some(numbered)
        } else {
            first_free_number(stem, ext, own, planned, entries, overwrite, from + 1)
        }
    }
}

/// Where a subtitle should go next to its video, as a name in their folder, or
/// `None` if every name is taken.
///
/// The plain `VideoStem.ext` form is preferred; when it is taken, a language tag
/// from the subtitle's own name is tried, then the numbers 2 to 999. Strict mode
/// stops after the first form.
pub open spec fn destination(
    sub: CandidateView,
    video: CandidateView,
    strict: bool,
    overwrite: bool,
    entries: Seq<Seq<char>>,
    planned: Seq<Seq<char>>,
) -> Option<Seq<char>> {
    match name_extension(sub.name) {
        None => None,
        Some(ext) => {
            let stem = name_stem(video.name);
            let base = dot_join(stem, ext);
            if free_for(base, sub.name, planned, entries, overwrite) {
                Some(base)
            } else if strict {
                None
            } else {
                let tagged = match stem_language(name_stem(sub.name)) {
                    Some(tag) => {
                        let name = dot_join(dot_join(stem, tag), ext);
                        if free_for(name, sub.name, planned, entries, overwrite) {
                            Some(name)
                        } else {
                            None
                        }
                    },
                    None => None,
                };
                match tagged {
                    Some(name) => Some(name),
                    None => first_free_number(stem, ext, sub.name, planned, entries, overwrite, 2),
                }
            }
        },
    }
}

fn dotted(a: &str, b: &str) -> (r: String)
    ensures
        r@ == dot_join(a@, b@),
{
    let left = concat(a, ".");
    proof {
        reveal_strlit(".");
    }
    concat(left.as_str(), b)
}

/// Append the decimal digits of `n` to `out`.
fn push_decimal(n: usize, out: &mut Vec<char>)
    ensures
        final(out)@ == old(out)@ + decimal(n as nat),
    decreases n,
{
    if n < 10 {
        out.push(digit_to_char(n as u32));
    } else {
        push_decimal(n / 10, out);
        out.push(digit_to_char((n % 10) as u32));
        assert(old(out)@ + decimal(n as nat) =~= (old(out)@ + decimal((n / 10) as nat)).push(digit_char((n % 10) as int)));
    }
}

/// The decimal digits of `n`, as text.
pub fn decimal_string(n: usize) -> (r: String)
    ensures
        r@ == decimal(n as nat),
{
    let mut out: Vec<char> = Vec::new();
    push_decimal(n, &mut out);
    assert(out@ =~= decimal(n as nat));
    string_from(out.as_slice())
}

/// Whether `list` holds `name`.
fn listed(list: &Vec<String>, name: &String) -> (r: bool)
    ensures
        r == views(list@).contains(name@),
{
    let mut k: usize = 0;
    while k < list.len()
        invariant
            k <= list@.len(),
            forall|m: int| 0 <= m < k ==> #[trigger] views(list@)[m] != name@,
        decreases list.len() - k,
    {
        if list[k] == *name {
            assert(views(list@)[k as int] == name@);
            return true;
        }
        k += 1;
    }
    false
}

fn is_free(name: &String, own: &str, planned: &Vec<String>, entries: &Vec<String>, overwrite: bool) -> (r: bool)
    ensures
        r == free_for(name@, own@, views(planned@), views(entries@), overwrite),
{
    let own_string = own.to_owned();
    if *name == own_string {
        return true;
    }
    !(listed(planned, name) || (!overwrite && listed(entries, name)))
}

/// Work out where a subtitle should go, as a name in its video's folder, or
/// `None` if every name is taken.
fn choose_destination(
    subtitle: &Candidate,
    video: &Candidate,
    strict: bool,
    overwrite_existing: bool,
    entries: &Vec<String>,
    planned: &Vec<String>,
) -> (r: Option<String>)
    ensures
        opt_view(r) == destination(subtitle@, video@, strict, overwrite_existing, views(entries@), views(planned@)),
{
    let extension = match extension_of(subtitle.name()) {
        Some(extension) => extension,
        None => return None,
    };
    let video_stem = stem_of(video.name());
    let own = subtitle.name();

    let base = dotted(video_stem.as_str(), extension.as_str());
    if is_free(&base, own, planned, entries, overwrite_existing) {
        return Some(base);
    }
    if strict {
        return None;
    }

    let subtitle_stem = stem_of(own);
    match language_tag(subtitle_stem.as_str()) {
        Some(tag) => {
            let with_tag = dotted(video_stem.as_str(), tag.as_str());
            let tagged = dotted(with_tag.as_str(), extension.as_str());
            if is_free(&tagged, own, planned, entries, overwrite_existing) {
                return Some(tagged);
            }
        },
        None => {},
    }

    // Bounded so a pathological folder cannot spin here forever.
    assert(destination(subtitle@, video@, strict, overwrite_existing, views(entries@), views(planned@))
        == first_free_number(video_stem@, extension@, own@, views(planned@), views(entries@), overwrite_existing, 2));
    let mut number: u32 = 2;
    while number < 1000
        invariant
            2 <= number <= 1000,
            destination(subtitle@, video@, strict, overwrite_existing, views(entries@), views(planned@))
                == first_free_number(video_stem@, extension@, own@, views(planned@), views(entries@), overwrite_existing, number as int),
        decreases 1000 - number,
    {
        let digits = decimal_string(number as usize);
        let with_number = dotted(video_stem.as_str(), digits.as_str());
        let numbered = dotted(with_number.as_str(), extension.as_str());
        if is_free(&numbered, own, planned, entries, overwrite_existing) {
            return Some(numbered);
        }
        number += 1;
    }
    None
}

// ------------------------------------------------------------ one folder

/// Which video a subtitle belongs to, or why it is left alone.
pub open spec fn verdict(sub: CandidateView, vids: Seq<CandidateView>, min_score: Score) -> Result<(int, MatchView), SkipView> {
    match sub.key {
        None => {
            let (choice, score) = fuzzy_choice(sub.stem, vids, min_score);
            match choice {
                Some(i) => Ok((i, MatchView::Fuzzy(score))),
                None => Err(SkipView::Unmatched(score)),
            }
        },
        Some(key) => episode_verdict(vids, key),
    }
}

/// A verdict as plain values.
pub open spec fn verdict_view(r: Result<(usize, MatchReason), SkipReason>) -> Result<(int, MatchView), SkipView> {
    match r {
        Ok((i, reason)) => Ok((i as int, reason@)),
        Err(reason) => Err(reason@),
    }
}

/// Work out which video a subtitle belongs to, or why it is being left alone.
fn match_subtitle(
    subtitle: &Candidate,
    videos: &Vec<Candidate>,
    index: &Vec<(String, usize, bool)>,
    targets: &Vec<Target>,
    min_score: Score,
    scratch: &mut Scratch,
) -> (r: Result<(usize, MatchReason), SkipReason>)
    requires
        min_score.denominator > 0,
        index_ok(entry_views(index@), candidate_views(videos@)),
        subtitle@.key is None ==> targets_for(targets@, candidate_views(videos@)),
        old(scratch).is_clean(),
    ensures
        final(scratch).is_clean(),
        verdict_view(r) == verdict(subtitle@, candidate_views(videos@), min_score),
        r matches Ok((i, _)) ==> i < videos@.len(),
{
    match subtitle.episode_key() {
        None => {
            proof {
                lemma_best_fold_index(subtitle@.stem, candidate_views(videos@), videos@.len() as int);
            }
            match choose_unique_best(subtitle.stem_norm(), videos, targets, min_score, scratch) {
                (Some(video), score) => Ok((video, MatchReason::Fuzzy(score))),
                (None, best_score) => Err(SkipReason::Unmatched { best_score }),
            }
        },
        Some(key) => {
            proof {
                lemma_holders(candidate_views(videos@), key@);
            }
            match lookup_episode(index, key, Ghost(candidate_views(videos@))) {
                Lookup::Ambiguous => Err(SkipReason::AmbiguousEpisode(key.clone())),
                Lookup::Unique(video) => Ok((video, MatchReason::Episode(key.clone()))),
                Lookup::Missing => Err(SkipReason::NoMatchingEpisode(key.clone())),
            }
        },
    }
}

proof fn lemma_best_fold_index(stem: Seq<char>, vids: Seq<CandidateView>, n: int)
    requires
        0 <= n <= vids.len(),
    ensures
        best_fold(stem, vids, n).0 matches Some((b, i)) ==> 0 <= i < n,
    decreases n,
{
    if n > 0 {
        lemma_best_fold_index(stem, vids, n - 1);
    }
}

/// The sort keys of candidates: their paths, lowercased.
pub open spec fn path_keys(cs: Seq<CandidateView>) -> Seq<Seq<char>> {
    cs.map_values(|c: CandidateView| lowercase(c.path))
}

/// The candidates of one folder in a stable order, by their lowercased paths.
pub open spec fn ordered(cs: Seq<CandidateView>) -> Seq<CandidateView> {
    sorted_order(path_keys(cs), cs.len() as int).map_values(|i: usize| cs[i as int])
}

impl Candidate {
    /// A copy of this candidate.
    pub fn duplicate(&self) -> (r: Candidate)
        ensures
            r@ == self@,
    {
        let mut stem: Vec<char> = Vec::new();
        let mut k: usize = 0;
        while k < self.stem_norm.len()
            invariant
                k <= self.stem_norm@.len(),
                stem@ == self.stem_norm@.take(k as int),
            decreases self.stem_norm.len() - k,
        {
            stem.push(self.stem_norm[k]);
            k += 1;
        }
        assert(self.stem_norm@.take(k as int) =~= self.stem_norm@);
        let key = match &self.episode_key {
            Some(key) => Some(key.clone()),
            None => None,
        };
        Candidate { path: self.path.clone(), name: self.name.clone(), stem_norm: stem, episode_key: key }
    }
}

/// Copies of `candidates`, in a stable order by their lowercased paths.
fn ordered_copies(candidates: &Vec<Candidate>) -> (r: Vec<Candidate>)
    ensures
        candidate_views(r@) == ordered(candidate_views(candidates@)),
{
    let ghost cs = candidate_views(candidates@);
    let mut keys: Vec<String> = Vec::new();
    let mut k: usize = 0;
    while k < candidates.len()
        invariant
            k <= candidates@.len(),
            cs == candidate_views(candidates@),
            keys@.len() == k,
            forall|m: int| 0 <= m < k ==> (#[trigger] keys@[m])@ == lowercase(cs[m].path),
        decreases candidates.len() - k,
    {
        keys.push(crate::paths::sort_key(candidates[k].path()));
        k += 1;
    }
    assert(views(keys@) =~= path_keys(cs));
    let order = sort_order(&keys);
    proof {
        lemma_sorted_order_len(path_keys(cs), cs.len() as int);
    }
    let mut out: Vec<Candidate> = Vec::new();
    let mut p: usize = 0;
    while p < order.len()
        invariant
            p <= order@.len(),
            cs == candidate_views(candidates@),
            order@ == sorted_order(path_keys(cs), cs.len() as int),
            order@.len() == cs.len(),
            forall|q: int| 0 <= q < order@.len() ==> (#[trigger] order@[q] as int) < cs.len(),
            out@.len() == p,
            forall|q: int| 0 <= q < p ==> (#[trigger] out@[q])@ == cs[order@[q] as int],
        decreases order.len() - p,
    {
        assert((order@[p as int] as int) < cs.len());
        out.push(candidates[order[p]].duplicate());
        p += 1;
    }
    assert(candidate_views(out@) =~= ordered(cs));
    out
}

/// The state of a folder's plan as its subtitles are decided in turn: the
/// renames so far, the subtitles skipped so far, and the names already planned.
pub struct PlanState {
    pub operations: Seq<(Seq<char>, Seq<char>, MatchView)>,
    pub skipped: Seq<(Seq<char>, SkipView)>,
    pub planned: Seq<Seq<char>>,
}

/// Decide one more subtitle: match it, find it a free name, and record the
/// rename, or why it stays.
pub open spec fn plan_step(
    state: PlanState,
    sub: CandidateView,
    vids: Seq<CandidateView>,
    directory: Seq<char>,
    entries: Seq<Seq<char>>,
    strict: bool,
    overwrite: bool,
    min_score: Score,
) -> PlanState {
    match verdict(sub, vids, min_score) {
        Err(reason) => PlanState { skipped: state.skipped.push((sub.path, reason)), ..state },
        Ok((v, reason)) => match destination(sub, vids[v], strict, overwrite, entries, state.planned) {
            None => PlanState {
                skipped: state.skipped.push((sub.path, if strict { SkipView::StrictCollision } else { SkipView::Collision })),
                ..state
            },
            Some(name) => if name == sub.name {
                PlanState { skipped: state.skipped.push((sub.path, SkipView::AlreadyMatches)), ..state }
            } else {
                PlanState {
                    operations: state.operations.push((sub.path, joined_path(directory, name), reason)),
                    planned: state.planned.push(name),
                    ..state
                }
            },
        },
    }
}

/// The plan after the first `n` subtitles.
pub open spec fn plan_fold(
    subs: Seq<CandidateView>,
    vids: Seq<CandidateView>,
    directory: Seq<char>,
    entries: Seq<Seq<char>>,
    strict: bool,
    overwrite: bool,
    min_score: Score,
    n: int,
) -> PlanState
    decreases n,
{
    if n <= 0 {
        PlanState { operations: seq![], skipped: seq![], planned: seq![] }
    } else {
        plan_step(plan_fold(subs, vids, directory, entries, strict, overwrite, min_score, n - 1), subs[n - 1], vids, directory, entries, strict, overwrite, min_score)
    }
}

/// Every rename inside one folder, and every subtitle left alone, in the order
/// of the subtitles' paths. A folder without videos skips all its subtitles.
pub open spec fn directory_plan(g: GroupView, strict: bool, overwrite: bool, min_score: Score) -> (Seq<(Seq<char>, Seq<char>, MatchView)>, Seq<(Seq<char>, SkipView)>) {
    let subs = ordered(g.subtitles);
    let vids = ordered(g.videos);
    if subs.len() == 0 {
        (seq![], seq![])
    } else if vids.len() == 0 {
        (seq![], subs.map_values(|s: CandidateView| (s.path, SkipView::NoVideo)))
    } else {
        let state = plan_fold(subs, vids, g.directory, g.entries, strict, overwrite, min_score, subs.len() as int);
        (state.operations, state.skipped)
    }
}

proof fn lemma_ordered(cs: Seq<CandidateView>)
    ensures
        ordered(cs).len() == cs.len(),
{
    lemma_sorted_order_len(path_keys(cs), cs.len() as int);
}

/// Decide every rename inside one folder.
pub fn build_directory_plan(group: &Group, options: &PlanOptions) -> (r: (Vec<RenameOp>, Vec<SkippedRename>))
    requires
        options.min_score.denominator > 0,
    ensures
        (op_views(r.0@), skip_views(r.1@)) == directory_plan(group@, options.strict, options.overwrite_existing, options.min_score),
{
    let ghost g = group@;
    let subtitles = ordered_copies(&group.subtitles);
    let videos = ordered_copies(&group.videos);
    let ghost subs = candidate_views(subtitles@);
    let ghost vids = candidate_views(videos@);
    proof {
        lemma_ordered(g.subtitles);
        lemma_ordered(g.videos);
    }
    let mut operations: Vec<RenameOp> = Vec::new();
    let mut skipped: Vec<SkippedRename> = Vec::new();
    if subtitles.len() == 0 {
        assert(op_views(operations@) =~= seq![]);
        assert(skip_views(skipped@) =~= seq![]);
        return (operations, skipped);
    }
    if videos.len() == 0 {
        let mut k: usize = 0;
        while k < subtitles.len()
            invariant
                k <= subtitles@.len(),
                subs == candidate_views(subtitles@),
                skipped@.len() == k,
                forall|m: int| 0 <= m < k ==> (#[trigger] skipped@[m])@ == (subs[m].path, SkipView::NoVideo),
            decreases subtitles.len() - k,
        {
            skipped.push(SkippedRename { path: subtitles[k].path().to_owned(), reason: SkipReason::NoVideo });
            k += 1;
        }
        assert(skip_views(skipped@) =~= subs.map_values(|s: CandidateView| (s.path, SkipView::NoVideo)));
        assert(op_views(operations@) =~= seq![]);
        return (operations, skipped);
    }

    // An episode id shared by two videos identifies neither.
    let index = episode_index(&videos);
    let targets = fuzzy_index(&subtitles, &videos);
    let mut scratch = Scratch::new();
    let mut planned: Vec<String> = Vec::new();
    assert(op_views(operations@) =~= seq![]);
    assert(skip_views(skipped@) =~= seq![]);
    assert(views(planned@) =~= seq![]);
    let mut k: usize = 0;
    while k < subtitles.len()
        invariant
            k <= subtitles@.len(),
            g == group@,
            subs == candidate_views(subtitles@),
            vids == candidate_views(videos@),
            subs == ordered(g.subtitles),
            vids == ordered(g.videos),
            vids.len() > 0,
            options.min_score.denominator > 0,
            index_ok(entry_views(index@), vids),
            (exists|i: int| 0 <= i < subs.len() && (#[trigger] subs[i]).key is None) ==> targets_for(targets@, vids),
            scratch.is_clean(),
            (PlanState { operations: op_views(operations@), skipped: skip_views(skipped@), planned: views(planned@) })
                == plan_fold(subs, vids, g.directory, g.entries, options.strict, options.overwrite_existing, options.min_score, k as int),
        decreases subtitles.len() - k,
    {
        let subtitle = &subtitles[k];
        let ghost sub = subs[k as int];
        let ghost before = PlanState { operations: op_views(operations@), skipped: skip_views(skipped@), planned: views(planned@) };
        assert(subtitle@ == sub);
        proof {
            if sub.key is None {
                assert(subs[k as int].key is None);
            }
        }
        let matched = match_subtitle(subtitle, &videos, &index, &targets, options.min_score, &mut scratch);
        match matched {
            Err(reason) => {
                skipped.push(SkippedRename { path: subtitle.path().to_owned(), reason });
                assert(skip_views(skipped@) =~= before.skipped.push((sub.path, reason@)));
            },
            Ok((v, reason)) => {
                let video = &videos[v];
                assert(video@ == vids[v as int]);
                match choose_destination(subtitle, video, options.strict, options.overwrite_existing, &group.entries, &planned) {
                    None => {
                        let reason = if options.strict { SkipReason::StrictCollision } else { SkipReason::Collision };
                        skipped.push(SkippedRename { path: subtitle.path().to_owned(), reason });
                        assert(skip_views(skipped@) =~= before.skipped.push((sub.path, reason@)));
                    },
                    Some(name) => {
                        let own = subtitle.name().to_owned();
                        if name == own {
                            skipped.push(SkippedRename { path: subtitle.path().to_owned(), reason: SkipReason::AlreadyMatches });
                            assert(skip_views(skipped@) =~= before.skipped.push((sub.path, SkipView::AlreadyMatches)));
                        } else {
                            let destination = join(group.directory(), name.as_str());
                            let ghost name_view = name@;
                            planned.push(name);
                            operations.push(RenameOp { source: subtitle.path().to_owned(), destination, reason });
                            assert(views(planned@) =~= before.planned.push(name_view));
                            assert(op_views(operations@) =~= before.operations.push((sub.path, joined_path(g.directory, name_view), reason@)));
                        }
                    },
                }
            },
        }
        k += 1;
    }
    (operations, skipped)
}

// ------------------------------------------------------------ whole plans

/// The sort keys of groups: their folders, lowercased.
pub open spec fn directory_keys(gs: Seq<GroupView>) -> Seq<Seq<char>> {
    gs.map_values(|g: GroupView| lowercase(g.directory))
}

/// The groups in a stable order, by their lowercased folders.
pub open spec fn ordered_groups(gs: Seq<GroupView>) -> Seq<GroupView> {
    sorted_order(directory_keys(gs), gs.len() as int).map_values(|i: usize| gs[i as int])
}

/// The renames of the first `n` groups, one folder after another.
pub open spec fn plan_operations(gs: Seq<GroupView>, strict: bool, overwrite: bool, min_score: Score, n: int) -> Seq<(Seq<char>, Seq<char>, MatchView)>
    decreases n,
{
    if n <= 0 {
        seq![]
    } else {
        plan_operations(gs, strict, overwrite, min_score, n - 1) + directory_plan(gs[n - 1], strict, overwrite, min_score).0
    }
}

/// The skipped subtitles of the first `n` groups, one folder after another.
pub open spec fn plan_skipped(gs: Seq<GroupView>, strict: bool, overwrite: bool, min_score: Score, n: int) -> Seq<(Seq<char>, SkipView)>
    decreases n,
{
    if n <= 0 {
        seq![]
    } else {
        plan_skipped(gs, strict, overwrite, min_score, n - 1) + directory_plan(gs[n - 1], strict, overwrite, min_score).1
    }
}

/// How many videos the groups hold.
pub open spec fn total_videos(gs: Seq<GroupView>) -> nat
    decreases gs.len(),
{
    if gs.len() == 0 {
        0
    } else {
        total_videos(gs.drop_last()) + gs.last().videos.len()
    }
}

/// How many subtitles the groups hold.
pub open spec fn total_subtitles(gs: Seq<GroupView>) -> nat
    decreases gs.len(),
{
    if gs.len() == 0 {
        0
    } else {
        total_subtitles(gs.drop_last()) + gs.last().subtitles.len()
    }
}

/// The views of a list of groups.
pub open spec fn group_views(gs: Seq<Group>) -> Seq<GroupView> {
    gs.map_values(|g: Group| g@)
}

/// A plan as plain values: its root, its renames, its skipped subtitles, and
/// how many videos and subtitles it looked at.
pub open spec fn plan_view(p: RenamePlan) -> (Seq<char>, Seq<(Seq<char>, Seq<char>, MatchView)>, Seq<(Seq<char>, SkipView)>, int, int) {
    (p.root@, op_views(p.operations@), skip_views(p.skipped@), p.video_count as int, p.subtitle_count as int)
}

/// The plan for `groups` under `root`: folder by folder in the order of their
/// lowercased paths.
pub open spec fn whole_plan(root: Seq<char>, gs: Seq<GroupView>, strict: bool, overwrite: bool, min_score: Score) -> (Seq<char>, Seq<(Seq<char>, Seq<char>, MatchView)>, Seq<(Seq<char>, SkipView)>, int, int) {
    let sorted = ordered_groups(gs);
    (
        root,
        plan_operations(sorted, strict, overwrite, min_score, sorted.len() as int),
        plan_skipped(sorted, strict, overwrite, min_score, sorted.len() as int),
        total_videos(gs) as int,
        total_subtitles(gs) as int,
    )
}

proof fn lemma_totals_remove(gs: Seq<GroupView>, j: int)
    requires
        0 <= j < gs.len(),
    ensures
        total_videos(gs) == total_videos(gs.remove(j)) + gs[j].videos.len(),
        total_subtitles(gs) == total_subtitles(gs.remove(j)) + gs[j].subtitles.len(),
    decreases gs.len(),
{
    if j == gs.len() - 1 {
        assert(gs.remove(j) =~= gs.drop_last());
    } else {
        lemma_totals_remove(gs.drop_last(), j);
        assert(gs.remove(j).drop_last() =~= gs.drop_last().remove(j));
        assert(gs.remove(j).last() == gs.last());
    }
}

/// The totals do not depend on the order of the groups.
proof fn lemma_totals_permutation(gs1: Seq<GroupView>, gs2: Seq<GroupView>)
    requires
        gs1.to_multiset() == gs2.to_multiset(),
    ensures
        total_videos(gs1) == total_videos(gs2),
        total_subtitles(gs1) == total_subtitles(gs2),
    decreases gs1.len(),
{
    broadcast use vstd::seq_lib::group_to_multiset_ensures;
    broadcast use vstd::multiset::group_multiset_axioms;

    if gs1.len() == 0 {
        assert(gs1.to_multiset().len() == gs1.len());
        assert(gs2.to_multiset().len() == gs2.len());
    } else {
        let x = gs1.last();
        let rest1 = gs1.drop_last();
        assert(gs1 =~= rest1.push(x));
        assert(gs1.to_multiset().count(x) > 0);
        assert(gs2.contains(x));
        let j = choose|j: int| 0 <= j < gs2.len() && gs2[j] == x;
        let rest2 = gs2.remove(j);
        assert(rest1.to_multiset() =~= gs1.to_multiset().remove(x));
        assert(rest2.to_multiset() =~= gs2.to_multiset().remove(x));
        lemma_totals_permutation(rest1, rest2);
        lemma_totals_remove(gs2, j);
    }
}

/// Two listings of the same candidates, each path listed once, come out in the
/// same order.
proof fn lemma_ordered_unique(c1: Seq<CandidateView>, c2: Seq<CandidateView>)
    requires
        c1.to_multiset() == c2.to_multiset(),
        c1.len() <= usize::MAX,
        distinct_keys(path_keys(c1)),
        distinct_keys(path_keys(c2)),
    ensures
        ordered(c1) == ordered(c2),
{
    broadcast use vstd::seq_lib::group_to_multiset_ensures;
    broadcast use vstd::multiset::group_multiset_axioms;

    let n = c1.len() as int;
    assert(c1.to_multiset().len() == c1.len());
    assert(c2.to_multiset().len() == c2.len());
    let k1 = path_keys(c1);
    let k2 = path_keys(c2);
    let key = |c: CandidateView| lowercase(c.path);
    lemma_map_multiset(c1, c2, key);
    assert(k1 =~= c1.map_values(key));
    assert(k2 =~= c2.map_values(key));
    lemma_sorted_keys(k1, n);
    lemma_sorted_keys(k2, n);
    assert(k1.take(n) =~= k1);
    assert(k2.take(n) =~= k2);
    lemma_lex_le_total();
    lemma_sorted_unique(sorted_keys(k1, n), sorted_keys(k2, n), text_order());
    let s1 = sorted_order(k1, n);
    let s2 = sorted_order(k2, n);
    lemma_sorted_order_len(k1, n);
    lemma_sorted_order_len(k2, n);
    let o1 = ordered(c1);
    let o2 = ordered(c2);
    lemma_sorted_items(k1, c1, n);
    assert(c1.take(n) =~= c1);
    assert forall|p: int| 0 <= p < n implies #[trigger] o1[p] == o2[p] by {
        assert(o1[p] == c1[s1[p] as int]);
        assert(o2[p] == c2[s2[p] as int]);
        assert(sorted_keys(k1, n)[p] == k1[s1[p] as int]);
        assert(sorted_keys(k2, n)[p] == k2[s2[p] as int]);
        assert(o1.to_multiset().count(o1[p]) > 0);
        assert(c2.contains(o1[p]));
        let j = choose|j: int| 0 <= j < c2.len() && c2[j] == o1[p];
        assert(k2[j] == key(c2[j]));
        assert(k1[s1[p] as int] == key(c1[s1[p] as int]));
        if j != s2[p] as int {
            if j < s2[p] as int {
                assert(k2[j] != k2[s2[p] as int]);
            } else {
                assert(k2[s2[p] as int] != k2[j]);
            }
        }
    }
    assert(o1 =~= o2);
}

/// Two listings with the same names.
pub open spec fn same_names(e1: Seq<Seq<char>>, e2: Seq<Seq<char>>) -> bool {
    forall|x: Seq<char>| #[trigger] e1.contains(x) == e2.contains(x)
}

proof fn lemma_first_free_number_names(
    stem: Seq<char>,
    ext: Seq<char>,
    own: Seq<char>,
    planned: Seq<Seq<char>>,
    e1: Seq<Seq<char>>,
    e2: Seq<Seq<char>>,
    overwrite: bool,
    from: int,
)
    requires
        same_names(e1, e2),
    ensures
        first_free_number(stem, ext, own, planned, e1, overwrite, from) == first_free_number(stem, ext, own, planned, e2, overwrite, from),
    decreases 1000 - from,
{
    if 0 <= from < 1000 {
        let numbered = dot_join(dot_join(stem, decimal(from as nat)), ext);
        assert(e1.contains(numbered) == e2.contains(numbered));
        lemma_first_free_number_names(stem, ext, own, planned, e1, e2, overwrite, from + 1);
    }
}

proof fn lemma_destination_names(
    sub: CandidateView,
    video: CandidateView,
    strict: bool,
    overwrite: bool,
    e1: Seq<Seq<char>>,
    e2: Seq<Seq<char>>,
    planned: Seq<Seq<char>>,
)
    requires
        same_names(e1, e2),
    ensures
        destination(sub, video, strict, overwrite, e1, planned) == destination(sub, video, strict, overwrite, e2, planned),
{
    if let Some(ext) = name_extension(sub.name) {
        let stem = name_stem(video.name);
        assert(e1.contains(dot_join(stem, ext)) == e2.contains(dot_join(stem, ext)));
        if let Some(tag) = stem_language(name_stem(sub.name)) {
            let tagged = dot_join(dot_join(stem, tag), ext);
            assert(e1.contains(tagged) == e2.contains(tagged));
        }
        lemma_first_free_number_names(stem, ext, sub.name, planned, e1, e2, overwrite, 2);
    }
}

proof fn lemma_plan_fold_names(
    subs: Seq<CandidateView>,
    vids: Seq<CandidateView>,
    directory: Seq<char>,
    e1: Seq<Seq<char>>,
    e2: Seq<Seq<char>>,
    strict: bool,
    overwrite: bool,
    min_score: Score,
    n: int,
)
    requires
        same_names(e1, e2),
    ensures
        plan_fold(subs, vids, directory, e1, strict, overwrite, min_score, n) == plan_fold(subs, vids, directory, e2, strict, overwrite, min_score, n),
    decreases n,
{
    if n > 0 {
        lemma_plan_fold_names(subs, vids, directory, e1, e2, strict, overwrite, min_score, n - 1);
        let state = plan_fold(subs, vids, directory, e1, strict, overwrite, min_score, n - 1);
        if let Ok((v, reason)) = verdict(subs[n - 1], vids, min_score) {
            lemma_destination_names(subs[n - 1], vids[v], strict, overwrite, e1, e2, state.planned);
        }
    }
}

/// A folder's renames do not depend on the order in which its files were
/// listed: the same subtitles and videos, each path listed once, and the same
/// names in the folder, give the same renames and the same skipped subtitles.
pub proof fn lemma_folder_plan_ignores_file_order(
    g1: GroupView,
    g2: GroupView,
    strict: bool,
    overwrite: bool,
    min_score: Score,
)
    requires
        g1.directory == g2.directory,
        same_names(g1.entries, g2.entries),
        g1.subtitles.to_multiset() == g2.subtitles.to_multiset(),
        g1.videos.to_multiset() == g2.videos.to_multiset(),
        g1.subtitles.len() <= usize::MAX,
        g1.videos.len() <= usize::MAX,
        distinct_keys(path_keys(g1.subtitles)),
        distinct_keys(path_keys(g2.subtitles)),
        distinct_keys(path_keys(g1.videos)),
        distinct_keys(path_keys(g2.videos)),
    ensures
        directory_plan(g1, strict, overwrite, min_score) == directory_plan(g2, strict, overwrite, min_score),
{
    lemma_ordered_unique(g1.subtitles, g2.subtitles);
    lemma_ordered_unique(g1.videos, g2.videos);
    let subs = ordered(g1.subtitles);
    lemma_plan_fold_names(subs, ordered(g1.videos), g1.directory, g1.entries, g2.entries, strict, overwrite, min_score, subs.len() as int);
}

/// Keys that are pairwise different.
pub open spec fn distinct_keys(keys: Seq<Seq<char>>) -> bool {
    forall|i: int, j: int| 0 <= i < j < keys.len() ==> keys[i] != keys[j]
}

/// A plan does not depend on the order in which the folders were listed: the
/// same folders, listed in any order, give the same plan.
pub proof fn lemma_plan_ignores_folder_order(
    root: Seq<char>,
    gs1: Seq<GroupView>,
    gs2: Seq<GroupView>,
    strict: bool,
    overwrite: bool,
    min_score: Score,
)
    requires
        gs1.to_multiset() == gs2.to_multiset(),
        gs1.len() <= usize::MAX,
        distinct_keys(directory_keys(gs1)),
        distinct_keys(directory_keys(gs2)),
    ensures
        whole_plan(root, gs1, strict, overwrite, min_score) == whole_plan(root, gs2, strict, overwrite, min_score),
{
    broadcast use vstd::seq_lib::group_to_multiset_ensures;
    broadcast use vstd::multiset::group_multiset_axioms;

    let n = gs1.len() as int;
    assert(gs1.to_multiset().len() == gs1.len());
    assert(gs2.to_multiset().len() == gs2.len());
    let k1 = directory_keys(gs1);
    let k2 = directory_keys(gs2);
    let key = |g: GroupView| lowercase(g.directory);
    lemma_map_multiset(gs1, gs2, key);
    assert(k1 =~= gs1.map_values(key));
    assert(k2 =~= gs2.map_values(key));
    lemma_sorted_keys(k1, n);
    lemma_sorted_keys(k2, n);
    assert(k1.take(n) =~= k1);
    assert(k2.take(n) =~= k2);
    lemma_lex_le_total();
    lemma_sorted_unique(sorted_keys(k1, n), sorted_keys(k2, n), text_order());
    let s1 = sorted_order(k1, n);
    let s2 = sorted_order(k2, n);
    lemma_sorted_order_len(k1, n);
    lemma_sorted_order_len(k2, n);
    let o1 = ordered_groups(gs1);
    let o2 = ordered_groups(gs2);
    lemma_sorted_items(k1, gs1, n);
    assert(gs1.take(n) =~= gs1);
    assert forall|p: int| 0 <= p < n implies #[trigger] o1[p] == o2[p] by {
        assert(o1[p] == gs1[s1[p] as int]);
        assert(o2[p] == gs2[s2[p] as int]);
        assert(sorted_keys(k1, n)[p] == k1[s1[p] as int]);
        assert(sorted_keys(k2, n)[p] == k2[s2[p] as int]);
        assert(o1.to_multiset().count(o1[p]) > 0);
        assert(gs2.contains(o1[p]));
        let j = choose|j: int| 0 <= j < gs2.len() && gs2[j] == o1[p];
        assert(k2[j] == key(gs2[j]));
        assert(k1[s1[p] as int] == key(gs1[s1[p] as int]));
        if j != s2[p] as int {
            if j < s2[p] as int {
                assert(k2[j] != k2[s2[p] as int]);
            } else {
                assert(k2[s2[p] as int] != k2[j]);
            }
        }
    }
    assert(o1 =~= o2);
    lemma_totals_permutation(gs1, gs2);
}

/// Whether the videos and the subtitles of `groups`, counted over all of them,
/// each fit in a `usize`.
pub fn total_counts_fit(groups: &Vec<Group>) -> (r: bool)
    ensures
        r == (total_videos(group_views(groups@)) <= usize::MAX && total_subtitles(group_views(groups@)) <= usize::MAX),
{
    let ghost gs = group_views(groups@);
    let mut videos: usize = 0;
    let mut subtitles: usize = 0;
    let mut k: usize = 0;
    while k < groups.len()
        invariant
            k <= groups@.len(),
            gs == group_views(groups@),
            videos == total_videos(gs.take(k as int)),
            subtitles == total_subtitles(gs.take(k as int)),
        decreases groups.len() - k,
    {
        proof {
            assert(gs.take(k + 1).drop_last() =~= gs.take(k as int));
            lemma_totals_prefix(gs, k + 1);
        }
        match videos.checked_add(groups[k].video_count()) {
            Some(v) => videos = v,
            None => return false,
        }
        match subtitles.checked_add(groups[k].subtitle_count()) {
            Some(v) => subtitles = v,
            None => return false,
        }
        k += 1;
    }
    assert(gs.take(k as int) =~= gs);
    true
}

/// Plan every folder of `groups`.
pub fn create_plan(root: String, groups: Vec<Group>, options: &PlanOptions) -> (r: RenamePlan)
    requires
        options.min_score.denominator > 0,
        total_videos(group_views(groups@)) <= usize::MAX,
        total_subtitles(group_views(groups@)) <= usize::MAX,
    ensures
        plan_view(r) == whole_plan(root@, group_views(groups@), options.strict, options.overwrite_existing, options.min_score),
{
    let ghost gs = group_views(groups@);
    let mut keys: Vec<String> = Vec::new();
    let mut k: usize = 0;
    while k < groups.len()
        invariant
            k <= groups@.len(),
            gs == group_views(groups@),
            keys@.len() == k,
            forall|m: int| 0 <= m < k ==> (#[trigger] keys@[m])@ == lowercase(gs[m].directory),
        decreases groups.len() - k,
    {
        keys.push(crate::paths::sort_key(groups[k].directory()));
        k += 1;
    }
    assert(views(keys@) =~= directory_keys(gs));
    let order = sort_order(&keys);
    proof {
        lemma_sorted_order_len(directory_keys(gs), gs.len() as int);
    }
    let ghost sorted = ordered_groups(gs);

    let mut video_count: usize = 0;
    let mut subtitle_count: usize = 0;
    let mut k: usize = 0;
    while k < groups.len()
        invariant
            k <= groups@.len(),
            gs == group_views(groups@),
            total_videos(gs) <= usize::MAX,
            total_subtitles(gs) <= usize::MAX,
            video_count == total_videos(gs.take(k as int)),
            subtitle_count == total_subtitles(gs.take(k as int)),
        decreases groups.len() - k,
    {
        proof {
            assert(gs.take(k + 1).drop_last() =~= gs.take(k as int));
            lemma_totals_prefix(gs, k + 1);
        }
        video_count = video_count + groups[k].video_count();
        subtitle_count = subtitle_count + groups[k].subtitle_count();
        k += 1;
    }
    assert(gs.take(k as int) =~= gs);

    let mut operations: Vec<RenameOp> = Vec::new();
    let mut skipped: Vec<SkippedRename> = Vec::new();
    assert(op_views(operations@) =~= seq![]);
    assert(skip_views(skipped@) =~= seq![]);
    let mut p: usize = 0;
    while p < order.len()
        invariant
            p <= order@.len(),
            gs == group_views(groups@),
            order@ == sorted_order(directory_keys(gs), gs.len() as int),
            order@.len() == gs.len(),
            forall|q: int| 0 <= q < order@.len() ==> (#[trigger] order@[q] as int) < gs.len(),
            sorted == ordered_groups(gs),
            options.min_score.denominator > 0,
            op_views(operations@) == plan_operations(sorted, options.strict, options.overwrite_existing, options.min_score, p as int),
            skip_views(skipped@) == plan_skipped(sorted, options.strict, options.overwrite_existing, options.min_score, p as int),
        decreases order.len() - p,
    {
        assert((order@[p as int] as int) < gs.len());
        let group = &groups[order[p]];
        assert(group@ == sorted[p as int]);
        let (mut directory_operations, mut directory_skipped) = build_directory_plan(group, options);
        let ghost before_operations = op_views(operations@);
        let ghost before_skipped = skip_views(skipped@);
        let ghost new_operations = op_views(directory_operations@);
        let ghost new_skipped = skip_views(directory_skipped@);
        operations.append(&mut directory_operations);
        skipped.append(&mut directory_skipped);
        assert(op_views(operations@) =~= before_operations + new_operations);
        assert(skip_views(skipped@) =~= before_skipped + new_skipped);
        p += 1;
    }
    RenamePlan { root, operations, skipped, video_count, subtitle_count }
}

proof fn lemma_totals_prefix(gs: Seq<GroupView>, n: int)
    requires
        0 <= n <= gs.len(),
    ensures
        total_videos(gs.take(n)) <= total_videos(gs),
        total_subtitles(gs.take(n)) <= total_subtitles(gs),
    decreases gs.len() - n,
{
    if n < gs.len() {
        lemma_totals_prefix(gs, n + 1);
        assert(gs.take(n + 1).drop_last() =~= gs.take(n));
    } else {
        assert(gs.take(n) =~= gs);
    }
}

// ------------------------------------------------------------ listings

/// The position of the first of `gs` from `k` on whose folder is the same path
/// as `dir`, or -1.
pub open spec fn find_group(gs: Seq<GroupView>, dir: Seq<char>, k: int) -> int
    decreases gs.len() - k,
{
    if k < 0 || k >= gs.len() {
        -1
    } else if same_path(gs[k].directory, dir) {
        k
    } else {
        find_group(gs, dir, k + 1)
    }
}

/// `gs` once the listed file at `path` is recorded: in the group of its parent
/// folder (`root` when it has none), created when new; its name joins the
/// folder's listing, and the file joins the videos or the subtitles when its
/// extension says so.
pub open spec fn add_listed(gs: Seq<GroupView>, root: Seq<char>, path: Seq<char>, videos: Seq<Seq<char>>, subtitles: Seq<Seq<char>>) -> Seq<GroupView> {
    let dir = match parent_path(path) {
        Some(parent) => parent,
        None => root,
    };
    let at = find_group(gs, dir, 0);
    let grown = if at < 0 {
        gs.push(GroupView { directory: dir, videos: seq![], subtitles: seq![], entries: seq![] })
    } else {
        gs
    };
    let i = if at < 0 {
        gs.len() as int
    } else {
        at
    };
    let g = grown[i];
    let updated = match final_component(path) {
        Some(name) => {
            let listed = GroupView { entries: g.entries.push(name), ..g };
            match kind_of(videos, subtitles, name) {
                Some(FileKind::Video) => GroupView { videos: listed.videos.push(Candidate::new_view(path, name)), ..listed },
                Some(FileKind::Subtitle) => GroupView { subtitles: listed.subtitles.push(Candidate::new_view(path, name)), ..listed },
                None => listed,
            }
        },
        None => g,
    };
    grown.update(i, updated)
}

/// The groups a listing of names under `root` falls into, after its first `n`
/// names.
pub open spec fn listing_groups(root: Seq<char>, names: Seq<Seq<char>>, videos: Seq<Seq<char>>, subtitles: Seq<Seq<char>>, n: int) -> Seq<GroupView>
    decreases n,
{
    if n <= 0 {
        seq![]
    } else {
        add_listed(listing_groups(root, names, videos, subtitles, n - 1), root, joined_path(root, names[n - 1]), videos, subtitles)
    }
}

/// The folder a made-up listing is planned under.
pub open spec fn virtual_root() -> Seq<char> {
    "/virtual-subtitle-library"@
}

proof fn lemma_find_group(gs: Seq<GroupView>, dir: Seq<char>, k: int)
    requires
        0 <= k,
    ensures
        find_group(gs, dir, k) == -1 || (k <= find_group(gs, dir, k) < gs.len()
            && same_path(gs[find_group(gs, dir, k)].directory, dir)),
    decreases gs.len() - k,
{
    if k < gs.len() && !same_path(gs[k].directory, dir) {
        lemma_find_group(gs, dir, k + 1);
    }
}

proof fn lemma_totals_push(gs: Seq<GroupView>, g: GroupView)
    ensures
        total_videos(gs.push(g)) == total_videos(gs) + g.videos.len(),
        total_subtitles(gs.push(g)) == total_subtitles(gs) + g.subtitles.len(),
{
    assert(gs.push(g).drop_last() =~= gs);
}

proof fn lemma_totals_update(gs: Seq<GroupView>, i: int, g: GroupView)
    requires
        0 <= i < gs.len(),
    ensures
        total_videos(gs.update(i, g)) + gs[i].videos.len() == total_videos(gs) + g.videos.len(),
        total_subtitles(gs.update(i, g)) + gs[i].subtitles.len() == total_subtitles(gs) + g.subtitles.len(),
    decreases gs.len(),
{
    if i == gs.len() - 1 {
        assert(gs.update(i, g).drop_last() =~= gs.drop_last());
    } else {
        lemma_totals_update(gs.drop_last(), i, g);
        assert(gs.update(i, g).drop_last() =~= gs.drop_last().update(i, g));
    }
}

proof fn lemma_listing_totals(root: Seq<char>, names: Seq<Seq<char>>, videos: Seq<Seq<char>>, subtitles: Seq<Seq<char>>, n: int)
    requires
        0 <= n,
    ensures
        total_videos(listing_groups(root, names, videos, subtitles, n)) + total_subtitles(listing_groups(root, names, videos, subtitles, n)) <= n,
    decreases n,
{
    if n > 0 {
        let gs = listing_groups(root, names, videos, subtitles, n - 1);
        lemma_listing_totals(root, names, videos, subtitles, n - 1);
        let path = joined_path(root, names[n - 1]);
        let dir = match parent_path(path) {
            Some(parent) => parent,
            None => root,
        };
        let at = find_group(gs, dir, 0);
        lemma_find_group(gs, dir, 0);
        let empty = GroupView { directory: dir, videos: seq![], subtitles: seq![], entries: seq![] };
        let grown = if at < 0 { gs.push(empty) } else { gs };
        let i = if at < 0 { gs.len() as int } else { at };
        if at < 0 {
            lemma_totals_push(gs, empty);
        }
        let g = grown[i];
        let updated = match final_component(path) {
            Some(name) => {
                let listed = GroupView { entries: g.entries.push(name), ..g };
                match kind_of(videos, subtitles, name) {
                    Some(FileKind::Video) => GroupView { videos: listed.videos.push(Candidate::new_view(path, name)), ..listed },
                    Some(FileKind::Subtitle) => GroupView { subtitles: listed.subtitles.push(Candidate::new_view(path, name)), ..listed },
                    None => listed,
                }
            },
            None => g,
        };
        lemma_totals_update(grown, i, updated);
        assert(add_listed(gs, root, path, videos, subtitles) == grown.update(i, updated));
    }
}

/// The folder a listed file belongs to: its parent, or `root` when it has none.
pub open spec fn folder_of(path: Seq<char>, root: Seq<char>) -> Seq<char> {
    match parent_path(path) {
        Some(parent) => parent,
        None => root,
    }
}

/// `g` is the group of the folder holding the file at `path`: its folder is
/// that folder, or the same path.
pub open spec fn holds_path(g: GroupView, path: Seq<char>, root: Seq<char>) -> bool {
    g.directory == folder_of(path, root) || same_path(g.directory, folder_of(path, root))
}

/// Every video and subtitle of every group sits in that group's folder.
pub open spec fn files_in_their_folders(gs: Seq<GroupView>, root: Seq<char>) -> bool {
    &&& forall|j: int, i: int| 0 <= j < gs.len() && 0 <= i < gs[j].subtitles.len() ==> holds_path(gs[j], #[trigger] gs[j].subtitles[i].path, root)
    &&& forall|j: int, i: int| 0 <= j < gs.len() && 0 <= i < gs[j].videos.len() ==> holds_path(gs[j], #[trigger] gs[j].videos[i].path, root)
}

/// A listing puts every file into the group of its own folder, so a folder's
/// group holds only the videos and subtitles that are really in it.
pub proof fn lemma_listing_keeps_files_in_their_folders(
    root: Seq<char>,
    names: Seq<Seq<char>>,
    videos: Seq<Seq<char>>,
    subtitles: Seq<Seq<char>>,
    n: int,
)
    ensures
        files_in_their_folders(listing_groups(root, names, videos, subtitles, n), root),
    decreases n,
{
    if n > 0 {
        lemma_listing_keeps_files_in_their_folders(root, names, videos, subtitles, n - 1);
        let gs = listing_groups(root, names, videos, subtitles, n - 1);
        let path = joined_path(root, names[n - 1]);
        let dir = folder_of(path, root);
        let at = find_group(gs, dir, 0);
        lemma_find_group(gs, dir, 0);
        let empty = GroupView { directory: dir, videos: seq![], subtitles: seq![], entries: seq![] };
        let grown = if at < 0 { gs.push(empty) } else { gs };
        let i = if at < 0 { gs.len() as int } else { at };
        assert(files_in_their_folders(grown, root));
        assert(holds_path(grown[i], path, root));
        let g = grown[i];
        let updated = match final_component(path) {
            Some(name) => {
                let listed = GroupView { entries: g.entries.push(name), ..g };
                match kind_of(videos, subtitles, name) {
                    Some(FileKind::Video) => GroupView { videos: listed.videos.push(Candidate::new_view(path, name)), ..listed },
                    Some(FileKind::Subtitle) => GroupView { subtitles: listed.subtitles.push(Candidate::new_view(path, name)), ..listed },
                    None => listed,
                }
            },
            None => g,
        };
        let out = grown.update(i, updated);
        assert(add_listed(gs, root, path, videos, subtitles) == out);
        assert(updated.directory == g.directory);
        assert forall|j: int, m: int| 0 <= j < out.len() && 0 <= m < out[j].subtitles.len() implies holds_path(out[j], #[trigger] out[j].subtitles[m].path, root) by {
            if j == i && m == g.subtitles.len() {
                assert(out[j].subtitles[m].path == path);
            } else if j == i {
                assert(out[j].subtitles[m] == g.subtitles[m]);
                assert(holds_path(grown[i], grown[i].subtitles[m].path, root));
            } else {
                assert(out[j] == grown[j]);
                assert(holds_path(grown[j], grown[j].subtitles[m].path, root));
            }
        }
        assert forall|j: int, m: int| 0 <= j < out.len() && 0 <= m < out[j].videos.len() implies holds_path(out[j], #[trigger] out[j].videos[m].path, root) by {
            if j == i && m == g.videos.len() {
                assert(out[j].videos[m].path == path);
            } else if j == i {
                assert(out[j].videos[m] == g.videos[m]);
                assert(holds_path(grown[i], grown[i].videos[m].path, root));
            } else {
                assert(out[j] == grown[j]);
                assert(holds_path(grown[j], grown[j].videos[m].path, root));
            }
        }
    }
}

/// Plan renames for a made-up listing of file names, as the demo and the
/// tests use.
///
/// Nothing here touches the filesystem: whether a target already exists is
/// answered from the listing itself.
pub fn plan_virtual_files(file_names: &[&str], options: &PlanOptions) -> (r: RenamePlan)
    requires
        options.min_score.denominator > 0,
    ensures
        plan_view(r) == whole_plan(
            virtual_root(),
            listing_groups(
                virtual_root(),
                file_names@.map_values(|name: &str| name@),
                extension_forms(views(options.video_exts@)),
                extension_forms(views(options.sub_exts@)),
                file_names@.len() as int,
            ),
            options.strict,
            options.overwrite_existing,
            options.min_score,
        ),
{
    let root = "/virtual-subtitle-library".to_owned();
    let scan = Scan::new(options);
    let ghost names = file_names@.map_values(|name: &str| name@);
    let ghost videos = views(scan.video_exts@);
    let ghost subtitles = views(scan.sub_exts@);
    let mut groups: Vec<Group> = Vec::new();
    assert(group_views(groups@) =~= listing_groups(root@, names, videos, subtitles, 0));
    let mut n: usize = 0;
    while n < file_names.len()
        invariant
            n <= file_names@.len(),
            root@ == virtual_root(),
            names == file_names@.map_values(|name: &str| name@),
            videos == views(scan.video_exts@),
            subtitles == views(scan.sub_exts@),
            group_views(groups@) == listing_groups(root@, names, videos, subtitles, n as int),
        decreases file_names.len() - n,
    {
        let ghost gs = group_views(groups@);
        let path = join(root.as_str(), file_names[n]);
        assert(path@ == joined_path(root@, names[n as int]));
        let directory = match path_parent(path.as_str()) {
            Some(parent) => parent,
            None => root.clone(),
        };
        let mut at: usize = 0;
        while at < groups.len() && !paths_equal(groups[at].directory(), directory.as_str())
            invariant
                at <= groups@.len(),
                gs == group_views(groups@),
                find_group(gs, directory@, 0) == find_group(gs, directory@, at as int),
            decreases groups.len() - at,
        {
            at += 1;
        }
        proof {
            lemma_find_group(gs, directory@, 0);
        }
        if at == groups.len() {
            groups.push(Group::new(directory.as_str()));
            assert(group_views(groups@) =~= gs.push(GroupView { directory: directory@, videos: seq![], subtitles: seq![], entries: seq![] }));
        }
        let ghost grown = group_views(groups@);
        let mut group = groups.remove(at);
        assert(group@ == grown[at as int]);
        match path_file_name(path.as_str()) {
            Some(name) => {
                group.add_entry(name.as_str());
                scan.classify_into(path.as_str(), name.as_str(), &mut group);
            },
            None => {},
        }
        let ghost updated = group@;
        groups.insert(at, group);
        assert(group_views(groups@) =~= grown.update(at as int, updated));
        n += 1;
    }
    proof {
        lemma_listing_totals(root@, names, videos, subtitles, n as int);
    }
    create_plan(root, groups, options)
}

// ------------------------------------------------------------------ laws

/// A target name comes out of [`destination`] only when it is free: the
/// subtitle's own name, or a name neither planned already nor (unless
/// overwriting) listed in the folder. It begins with the video's stem and a dot,
/// keeps the subtitle's extension, and in strict mode it is the plain
/// `VideoStem.ext` form.
pub proof fn lemma_destination(
    sub: CandidateView,
    video: CandidateView,
    strict: bool,
    overwrite: bool,
    entries: Seq<Seq<char>>,
    planned: Seq<Seq<char>>,
)
    ensures
        destination(sub, video, strict, overwrite, entries, planned) matches Some(name) ==> {
            &&& free_for(name, sub.name, planned, entries, overwrite)
            &&& name_extension(sub.name) matches Some(ext) && exists|front: Seq<char>| name == dot_join(front, ext)
            &&& exists|rest: Seq<char>| name == dot_join(name_stem(video.name), rest)
            &&& strict ==> name == dot_join(name_stem(video.name), name_extension(sub.name)->0)
        },
{
    if let Some(ext) = name_extension(sub.name) {
        let stem = name_stem(video.name);
        let base = dot_join(stem, ext);
        if let Some(name) = destination(sub, video, strict, overwrite, entries, planned) {
            if name == base && free_for(base, sub.name, planned, entries, overwrite) {
                assert(name == dot_join(stem, ext));
                assert(free_for(name, sub.name, planned, entries, overwrite));
            } else {
                assert(!free_for(base, sub.name, planned, entries, overwrite));
                assert(!strict);
                let tagged = match stem_language(name_stem(sub.name)) {
                    Some(tag) => {
                        let candidate = dot_join(dot_join(stem, tag), ext);
                        if free_for(candidate, sub.name, planned, entries, overwrite) {
                            Some(candidate)
                        } else {
                            None
                        }
                    },
                    None => None,
                };
                match tagged {
                    Some(t) => {
                        let tag = stem_language(name_stem(sub.name))->0;
                        assert(name == t);
                        assert(name == dot_join(dot_join(stem, tag), ext));
                        assert(name =~= dot_join(stem, dot_join(tag, ext)));
                        assert(free_for(name, sub.name, planned, entries, overwrite));
                    },
                    None => {
                        lemma_first_free_number(stem, ext, sub.name, planned, entries, overwrite, 2);
                    },
                }
            }
        }
    }
}

proof fn lemma_first_free_number(
    stem: Seq<char>,
    ext: Seq<char>,
    own: Seq<char>,
    planned: Seq<Seq<char>>,
    entries: Seq<Seq<char>>,
    overwrite: bool,
    from: int,
)
    ensures
        first_free_number(stem, ext, own, planned, entries, overwrite, from) matches Some(name) ==> {
            &&& free_for(name, own, planned, entries, overwrite)
            &&& exists|front: Seq<char>| name == dot_join(front, ext)
            &&& exists|rest: Seq<char>| name == dot_join(stem, rest)
        },
    decreases 1000 - from,
{
    if 0 <= from < 1000 {
        let numbered = dot_join(dot_join(stem, decimal(from as nat)), ext);
        if free_for(numbered, own, planned, entries, overwrite) {
            assert(numbered == dot_join(dot_join(stem, decimal(from as nat)), ext));
            assert(numbered =~= dot_join(stem, dot_join(decimal(from as nat), ext)));
        } else {
            lemma_first_free_number(stem, ext, own, planned, entries, overwrite, from + 1);
        }
    }
}

/// No two entries of `names` are equal.
pub open spec fn all_distinct(names: Seq<Seq<char>>) -> bool {
    forall|i: int, j: int| 0 <= i < j < names.len() ==> names[i] != names[j]
}

proof fn lemma_plan_fold_targets(
    subs: Seq<CandidateView>,
    vids: Seq<CandidateView>,
    directory: Seq<char>,
    entries: Seq<Seq<char>>,
    strict: bool,
    overwrite: bool,
    min_score: Score,
    n: int,
)
    requires
        0 <= n <= subs.len(),
    ensures
        ({
            let state = plan_fold(subs, vids, directory, entries, strict, overwrite, min_score, n);
            &&& state.planned.len() == state.operations.len()
            &&& all_distinct(state.planned)
            &&& forall|k: int| 0 <= k < state.planned.len() ==> (#[trigger] state.operations[k]).1 == joined_path(directory, state.planned[k])
            &&& !overwrite ==> forall|k: int| 0 <= k < state.planned.len() ==> !entries.contains(#[trigger] state.planned[k])
            &&& forall|k: int| #![trigger state.planned[k]] 0 <= k < state.planned.len() ==> exists|i: int| 0 <= i < n && (#[trigger] subs[i]).path == state.operations[k].0 && state.planned[k] != subs[i].name
        }),
    decreases n,
{
    if n > 0 {
        lemma_plan_fold_targets(subs, vids, directory, entries, strict, overwrite, min_score, n - 1);
        let before = plan_fold(subs, vids, directory, entries, strict, overwrite, min_score, n - 1);
        let sub = subs[n - 1];
        match verdict(sub, vids, min_score) {
            Err(_) => {},
            Ok((v, reason)) => {
                lemma_destination(sub, vids[v], strict, overwrite, entries, before.planned);
                match destination(sub, vids[v], strict, overwrite, entries, before.planned) {
                    None => {},
                    Some(name) => {
                        if name != sub.name {
                            let state = plan_fold(subs, vids, directory, entries, strict, overwrite, min_score, n);
                            assert(state.planned == before.planned.push(name));
                            assert(!before.planned.contains(name));
                            assert forall|i: int, j: int| 0 <= i < j < state.planned.len() implies state.planned[i] != state.planned[j] by {
                                if j == state.planned.len() - 1 {
                                    assert(before.planned[i] != name) by {
                                        if before.planned[i] == name {
                                            assert(before.planned.contains(name));
                                        }
                                    }
                                } else {
                                    assert(before.planned[i] != before.planned[j]);
                                }
                            }
                            assert forall|k: int| #![trigger state.planned[k]] 0 <= k < state.planned.len() implies exists|i: int| 0 <= i < n && (#[trigger] subs[i]).path == state.operations[k].0 && state.planned[k] != subs[i].name by {
                                if k == state.planned.len() - 1 {
                                    assert(subs[n - 1].path == state.operations[k].0);
                                } else {
                                    assert(state.operations[k] == before.operations[k]);
                                    let i = choose|i: int| 0 <= i < n - 1 && (#[trigger] subs[i]).path == before.operations[k].0 && before.planned[k] != subs[i].name;
                                    assert(subs[i].path == state.operations[k].0);
                                }
                            }
                        }
                    },
                }
            },
        }
    }
}

/// Within one folder, no two renames share a target name, each target is the
/// folder joined with its name, none replaces a file listed in the folder
/// unless overwriting was asked for, and every rename moves one of the
/// folder's subtitles to a name other than its own.
pub proof fn lemma_folder_targets(g: GroupView, strict: bool, overwrite: bool, min_score: Score)
    ensures
        ({
            let (ops, skipped) = directory_plan(g, strict, overwrite, min_score);
            exists|names: Seq<Seq<char>>| {
                &&& names.len() == ops.len()
                &&& all_distinct(names)
                &&& forall|k: int| 0 <= k < names.len() ==> (#[trigger] ops[k]).1 == joined_path(g.directory, names[k])
                &&& !overwrite ==> forall|k: int| 0 <= k < names.len() ==> !g.entries.contains(#[trigger] names[k])
                &&& forall|k: int| #![trigger names[k]] 0 <= k < names.len() ==> exists|i: int| 0 <= i < g.subtitles.len() && (#[trigger] g.subtitles[i]).path == ops[k].0 && names[k] != g.subtitles[i].name
            }
        }),
{
    let subs = ordered(g.subtitles);
    let vids = ordered(g.videos);
    lemma_ordered(g.subtitles);
    let (ops, skipped) = directory_plan(g, strict, overwrite, min_score);
    if subs.len() == 0 || vids.len() == 0 {
        let names: Seq<Seq<char>> = seq![];
        assert(names.len() == ops.len());
    } else {
        lemma_plan_fold_targets(subs, vids, g.directory, g.entries, strict, overwrite, min_score, subs.len() as int);
        let state = plan_fold(subs, vids, g.directory, g.entries, strict, overwrite, min_score, subs.len() as int);
        let names = state.planned;
        assert forall|k: int| #![trigger names[k]] 0 <= k < names.len() implies exists|i: int| 0 <= i < g.subtitles.len() && (#[trigger] g.subtitles[i]).path == ops[k].0 && names[k] != g.subtitles[i].name by {
            let i = choose|i: int| 0 <= i < subs.len() && (#[trigger] subs[i]).path == state.operations[k].0 && state.planned[k] != subs[i].name;
            lemma_sorted_order_len(path_keys(g.subtitles), g.subtitles.len() as int);
            let j = sorted_order(path_keys(g.subtitles), g.subtitles.len() as int)[i] as int;
            assert(subs[i] == g.subtitles[j]);
        }
    }
}

/// The rename `op` moves one of the subtitles of `g` to another name inside the
/// folder of `g`, a name not listed there unless overwriting was asked for.
pub open spec fn renames_within(g: GroupView, op: (Seq<char>, Seq<char>, MatchView), overwrite: bool) -> bool {
    exists|i: int, name: Seq<char>| {
        &&& 0 <= i < g.subtitles.len()
        &&& (#[trigger] g.subtitles[i]).path == op.0
        &&& op.1 == #[trigger] joined_path(g.directory, name)
        &&& name != g.subtitles[i].name
        &&& !overwrite ==> !g.entries.contains(name)
    }
}

/// The rename `op` stays inside the folder of one of the groups `gs`.
pub open spec fn within_some(gs: Seq<GroupView>, op: (Seq<char>, Seq<char>, MatchView), overwrite: bool) -> bool {
    exists|j: int| 0 <= j < gs.len() && #[trigger] renames_within(gs[j], op, overwrite)
}

proof fn lemma_operations_within(gs: Seq<GroupView>, strict: bool, overwrite: bool, min_score: Score, n: int)
    requires
        0 <= n <= gs.len(),
    ensures
        forall|k: int| 0 <= k < plan_operations(gs, strict, overwrite, min_score, n).len() ==>
            #[trigger] within_some(gs.take(n), plan_operations(gs, strict, overwrite, min_score, n)[k], overwrite),
    decreases n,
{
    if n > 0 {
        lemma_operations_within(gs, strict, overwrite, min_score, n - 1);
        let before = plan_operations(gs, strict, overwrite, min_score, n - 1);
        let g = gs[n - 1];
        let own = directory_plan(g, strict, overwrite, min_score).0;
        let ops = plan_operations(gs, strict, overwrite, min_score, n);
        assert(ops == before + own);
        lemma_folder_targets(g, strict, overwrite, min_score);
        let names = choose|names: Seq<Seq<char>>| {
            &&& names.len() == own.len()
            &&& all_distinct(names)
            &&& forall|k: int| 0 <= k < names.len() ==> (#[trigger] own[k]).1 == joined_path(g.directory, names[k])
            &&& !overwrite ==> forall|k: int| 0 <= k < names.len() ==> !g.entries.contains(#[trigger] names[k])
            &&& forall|k: int| #![trigger names[k]] 0 <= k < names.len() ==> exists|i: int| 0 <= i < g.subtitles.len() && (#[trigger] g.subtitles[i]).path == own[k].0 && names[k] != g.subtitles[i].name
        };
        assert forall|k: int| 0 <= k < ops.len() implies #[trigger] within_some(gs.take(n), ops[k], overwrite) by {
            if k < before.len() {
                assert(ops[k] == before[k]);
                assert(within_some(gs.take(n - 1), before[k], overwrite));
                let j = choose|j: int| 0 <= j < n - 1 && #[trigger] renames_within(gs.take(n - 1)[j], before[k], overwrite);
                assert(gs.take(n)[j] == gs.take(n - 1)[j]);
                assert(renames_within(gs.take(n)[j], ops[k], overwrite));
            } else {
                let m = k - before.len();
                assert(ops[k] == own[m]);
                let name = names[m];
                let i = choose|i: int| 0 <= i < g.subtitles.len() && (#[trigger] g.subtitles[i]).path == own[m].0 && names[m] != g.subtitles[i].name;
                assert(own[m].1 == joined_path(g.directory, name));
                assert(!overwrite ==> !g.entries.contains(name));
                assert(renames_within(g, ops[k], overwrite));
                assert(gs.take(n)[n - 1] == g);
                assert(renames_within(gs.take(n)[n - 1], ops[k], overwrite));
            }
        }
    }
}

/// A plan never matches across folders: every rename moves a subtitle of one
/// of the folders to a new name inside that same folder, and without
/// overwriting that name is not one already listed there.
pub proof fn lemma_renames_stay_in_their_folder(
    root: Seq<char>,
    gs: Seq<GroupView>,
    strict: bool,
    overwrite: bool,
    min_score: Score,
)
    ensures
        forall|k: int| 0 <= k < whole_plan(root, gs, strict, overwrite, min_score).1.len() ==>
            #[trigger] within_some(gs, whole_plan(root, gs, strict, overwrite, min_score).1[k], overwrite),
{
    let sorted = ordered_groups(gs);
    let n = gs.len() as int;
    lemma_sorted_order_len(directory_keys(gs), n);
    lemma_operations_within(sorted, strict, overwrite, min_score, n);
    assert(sorted.take(n) =~= sorted);
    let ops = whole_plan(root, gs, strict, overwrite, min_score).1;
    assert forall|k: int| 0 <= k < ops.len() implies #[trigger] within_some(gs, ops[k], overwrite) by {
        assert(within_some(sorted.take(n), ops[k], overwrite));
        let p = choose|p: int| 0 <= p < n && #[trigger] renames_within(sorted.take(n)[p], ops[k], overwrite);
        let j = sorted_order(directory_keys(gs), n)[p] as int;
        assert(sorted[p] == gs[j]);
        assert(renames_within(gs[j], ops[k], overwrite));
    }
}

/// Joining a folder with two names that are not absolute gives two different
/// paths for two different names.
pub proof fn lemma_join_injective(dir: Seq<char>, a: Seq<char>, b: Seq<char>)
    requires
        a != b,
        a.len() == 0 || a[0] != '/',
        b.len() == 0 || b[0] != '/',
    ensures
        joined_path(dir, a) != joined_path(dir, b),
{
    let prefix = if dir.len() == 0 || dir.last() == '/' { dir } else { dir + seq!['/'] };
    assert(joined_path(dir, a) == prefix + a);
    assert(joined_path(dir, b) == prefix + b);
    if prefix + a == prefix + b {
        assert(a =~= (prefix + a).skip(prefix.len() as int));
        assert(b =~= (prefix + b).skip(prefix.len() as int));
    }
}

/// An episode match names the one video carrying the subtitle's episode id;
/// a fuzzy match names a video whose score reaches the threshold and leads the
/// runner-up by the margin.
pub proof fn lemma_verdict(sub: CandidateView, vids: Seq<CandidateView>, min_score: Score)
    ensures
        verdict(sub, vids, min_score) matches Ok((i, MatchView::Episode(key))) ==> {
            &&& sub.key == Some(key)
            &&& 0 <= i < vids.len()
            &&& vids[i].key == Some(key)
            &&& holders(vids, key) == 1
        },
        verdict(sub, vids, min_score) matches Ok((i, MatchView::Fuzzy(score))) ==> {
            &&& sub.key is None
            &&& 0 <= i < vids.len()
            &&& score == score_of(sub.stem, vids[i].stem)
            &&& !score.lt(min_score)
            &&& !within_margin(score, best_fold(sub.stem, vids, vids.len() as int).1)
            &&& forall|j: int| 0 <= j < vids.len() && j != i && #[trigger] scored(sub.stem, vids[j]) ==> {
                &&& score_of(sub.stem, vids[j].stem).le(score)
                &&& !within_margin(score, score_of(sub.stem, vids[j].stem))
            }
        },
{
    match sub.key {
        Some(key) => {
            lemma_holders(vids, key);
        },
        None => {
            let n = vids.len() as int;
            lemma_best_fold_score(sub.stem, vids, n);
            lemma_best_fold_order(sub.stem, vids, n);
            if let Ok((i, MatchView::Fuzzy(score))) = verdict(sub, vids, min_score) {
                let ru = best_fold(sub.stem, vids, n).1;
                assert forall|j: int| 0 <= j < vids.len() && j != i && #[trigger] scored(sub.stem, vids[j]) implies {
                    &&& score_of(sub.stem, vids[j].stem).le(score)
                    &&& !within_margin(score, score_of(sub.stem, vids[j].stem))
                } by {
                    lemma_score_denominator(sub.stem, vids[j].stem);
                    lemma_margin_grows(score, ru, score_of(sub.stem, vids[j].stem));
                }
            }
        },
    }
}

/// A subtitle without an episode id that is left unmatched reports the best
/// score any video reached: no scored video beats it, and it is the score of
/// one of them (or zero, when no video scored above zero), so a near miss
/// shows how near it was.
pub proof fn lemma_unmatched_reports_the_best_score(sub: CandidateView, vids: Seq<CandidateView>, min_score: Score)
    requires
        sub.key is None,
    ensures
        verdict(sub, vids, min_score) matches Err(SkipView::Unmatched(score)) ==> {
            &&& forall|j: int| 0 <= j < vids.len() && #[trigger] scored(sub.stem, vids[j]) ==> score_of(sub.stem, vids[j].stem).le(score)
            &&& score == (Score { numerator: 0, denominator: 1 }) || exists|j: int| 0 <= j < vids.len() && #[trigger] scored(sub.stem, vids[j]) && score == score_of(sub.stem, vids[j].stem)
            &&& (exists|j: int| 0 <= j < vids.len() && #[trigger] scored(sub.stem, vids[j]) && score_of(sub.stem, vids[j].stem).numerator > 0) ==> score.numerator > 0
        },
{
    let n = vids.len() as int;
    lemma_best_fold_order(sub.stem, vids, n);
    lemma_best_fold_score(sub.stem, vids, n);
    if let Err(SkipView::Unmatched(score)) = verdict(sub, vids, min_score) {
        if sub.stem.len() == 0 {
            assert forall|j: int| 0 <= j < vids.len() && #[trigger] scored(sub.stem, vids[j]) implies score_of(sub.stem, vids[j].stem).le(score) by {}
        } else {
            let (best, ru) = best_fold(sub.stem, vids, n);
            match best {
                Some((b, i)) => {
                    assert(score == b);
                    assert(scored(sub.stem, vids[i]) || !scored(sub.stem, vids[i]));
                    lemma_best_fold_scored(sub.stem, vids, n);
                    assert forall|j: int| 0 <= j < vids.len() && #[trigger] scored(sub.stem, vids[j]) && score_of(sub.stem, vids[j].stem).numerator > 0 implies score.numerator > 0 by {
                        lemma_score_denominator(sub.stem, vids[j].stem);
                        let t = score_of(sub.stem, vids[j].stem);
                        assert(t.numerator * b.denominator <= b.numerator * t.denominator);
                        assert(t.numerator * b.denominator > 0) by (nonlinear_arith)
                            requires
                                t.numerator > 0,
                                b.denominator > 0,
                        ;
                        if b.numerator == 0 {
                            assert(b.numerator * t.denominator == 0) by (nonlinear_arith)
                                requires
                                    b.numerator == 0,
                            ;
                        }
                    }
                },
                None => {},
            }
        }
    }
}

proof fn lemma_best_fold_scored(stem: Seq<char>, vids: Seq<CandidateView>, n: int)
    requires
        0 <= n <= vids.len(),
    ensures
        best_fold(stem, vids, n).0 matches Some((b, i)) ==> scored(stem, vids[i]),
    decreases n,
{
    if n > 0 {
        lemma_best_fold_scored(stem, vids, n - 1);
    }
}

proof fn lemma_ascii_equal_moves(list: Seq<Seq<char>>, e1: Seq<char>, e2: Seq<char>)
    requires
        forall|i: int| 0 <= i < e1.len() ==> (#[trigger] e1[i] as int) < 128,
        e1.len() == e2.len(),
        forall|i: int| 0 <= i < e1.len() ==> #[trigger] ascii_lower(e1[i]) == ascii_lower(e2[i]),
    ensures
        all_ascii(e1),
        all_ascii(e2),
        extension_listed(list, e1) == extension_listed(list, e2),
{
    assert forall|i: int| 0 <= i < e2.len() implies (#[trigger] e2[i] as int) < 128 by {
        assert(ascii_lower(e1[i]) == ascii_lower(e2[i]));
    }
    if extension_listed(list, e1) {
        let k = choose|k: int| 0 <= k < list.len() && #[trigger] ascii_equal(list[k], e1);
        assert(ascii_equal(list[k], e2));
    }
    if extension_listed(list, e2) {
        let k = choose|k: int| 0 <= k < list.len() && #[trigger] ascii_equal(list[k], e2);
        assert(ascii_equal(list[k], e1));
    }
}

/// Extensions are compared ignoring ASCII case: two names whose ASCII
/// extensions differ only in the case of their letters go in the same bucket.
pub proof fn lemma_extension_case_does_not_matter(
    videos: Seq<Seq<char>>,
    subtitles: Seq<Seq<char>>,
    n1: Seq<char>,
    n2: Seq<char>,
    e1: Seq<char>,
    e2: Seq<char>,
)
    requires
        name_extension(n1) == Some(e1),
        name_extension(n2) == Some(e2),
        forall|i: int| 0 <= i < e1.len() ==> (#[trigger] e1[i] as int) < 128,
        e1.len() == e2.len(),
        forall|i: int| 0 <= i < e1.len() ==> #[trigger] ascii_lower(e1[i]) == ascii_lower(e2[i]),
    ensures
        kind_of(videos, subtitles, n1) == kind_of(videos, subtitles, n2),
{
    lemma_ascii_equal_moves(videos, e1, e2);
    lemma_ascii_equal_moves(subtitles, e1, e2);
}

/// A name whose ASCII extension equals a listed video extension, ignoring
/// ASCII case, is a video.
pub proof fn lemma_listed_video_extension(
    videos: Seq<Seq<char>>,
    subtitles: Seq<Seq<char>>,
    name: Seq<char>,
    e: Seq<char>,
    k: int,
)
    requires
        name_extension(name) == Some(e),
        forall|i: int| 0 <= i < e.len() ==> (#[trigger] e[i] as int) < 128,
        0 <= k < videos.len(),
        videos[k].len() == e.len(),
        forall|i: int| 0 <= i < e.len() ==> #[trigger] ascii_lower(videos[k][i]) == ascii_lower(e[i]),
    ensures
        kind_of(videos, subtitles, name) == Some(FileKind::Video),
{
    assert(all_ascii(e));
    assert(ascii_equal(videos[k], e));
}

/// A subtitle with an episode id is matched by the id alone: the fuzzy
/// threshold plays no part in its verdict.
pub proof fn lemma_episode_ids_ignore_the_threshold(sub: CandidateView, vids: Seq<CandidateView>, a: Score, b: Score)
    requires
        sub.key is Some,
    ensures
        verdict(sub, vids, a) == verdict(sub, vids, b),
{
}

/// Lowering the threshold never takes a match away: a subtitle matched at a
/// stricter threshold gets the same verdict at a looser one.
pub proof fn lemma_looser_threshold_keeps_matches(sub: CandidateView, vids: Seq<CandidateView>, looser: Score, stricter: Score)
    requires
        looser.denominator > 0,
        stricter.denominator > 0,
        looser.le(stricter),
        verdict(sub, vids, stricter) is Ok,
    ensures
        verdict(sub, vids, looser) == verdict(sub, vids, stricter),
{
    if sub.key is None && sub.stem.len() > 0 {
        lemma_best_fold_order(sub.stem, vids, vids.len() as int);
        if let Some((b, i)) = best_fold(sub.stem, vids, vids.len() as int).0 {
            lemma_le_trans(looser, stricter, b);
        }
    }
}

/// Whether a video takes part in the fuzzy comparison with a subtitle stem: its
/// stem is not empty and the two lengths together fit a score.
pub open spec fn scored(stem: Seq<char>, v: CandidateView) -> bool {
    v.stem.len() > 0 && stem.len() + v.stem.len() <= usize::MAX
}

proof fn lemma_score_denominator(a: Seq<char>, b: Seq<char>)
    requires
        a.len() + b.len() <= usize::MAX,
    ensures
        score_of(a, b).denominator > 0,
{
}

/// A lower runner-up only widens the lead.
proof fn lemma_margin_grows(b: Score, r: Score, s: Score)
    requires
        b.denominator > 0,
        r.denominator > 0,
        s.denominator > 0,
        s.le(r),
        !within_margin(b, r),
    ensures
        !within_margin(b, s),
{
    let (bn, bd, rn, rd, sn, sd) = (b.numerator as int, b.denominator as int, r.numerator as int, r.denominator as int, s.numerator as int, s.denominator as int);
    assert((bn * rd - rn * bd) * 100 >= 6 * bd * rd);
    assert(sn * rd <= rn * sd);
    assert((bn * rd * sd - rn * bd * sd) * 100 >= 6 * bd * rd * sd) by (nonlinear_arith)
        requires
            (bn * rd - rn * bd) * 100 >= 6 * bd * rd,
            sd > 0,
    ;
    assert(sn * rd * bd <= rn * sd * bd) by (nonlinear_arith)
        requires
            sn * rd <= rn * sd,
            bd > 0,
    ;
    assert((bn * sd * rd - sn * bd * rd) * 100 >= 6 * bd * sd * rd) by (nonlinear_arith)
        requires
            (bn * rd * sd - rn * bd * sd) * 100 >= 6 * bd * rd * sd,
            sn * rd * bd <= rn * sd * bd,
    ;
    assert((bn * sd - sn * bd) * 100 >= 6 * bd * sd) by (nonlinear_arith)
        requires
            (bn * sd * rd - sn * bd * rd) * 100 >= 6 * bd * sd * rd,
            rd > 0,
    ;
}

/// After the first `n` videos, the leader scores at least as much as every
/// scored video, the runner-up at least as much as every other one, and with no
/// leader every scored video scored zero.
proof fn lemma_best_fold_order(stem: Seq<char>, vids: Seq<CandidateView>, n: int)
    requires
        0 <= n <= vids.len(),
    ensures
        ({
            let (best, ru) = best_fold(stem, vids, n);
            &&& ru.denominator > 0
            &&& (best matches Some((b, i)) ==> {
                &&& b.denominator > 0
                &&& ru.le(b)
                &&& forall|j: int| 0 <= j < n && #[trigger] scored(stem, vids[j]) ==> score_of(stem, vids[j].stem).le(b)
                &&& forall|j: int| 0 <= j < n && j != i && #[trigger] scored(stem, vids[j]) ==> score_of(stem, vids[j].stem).le(ru)
            })
            &&& (best is None ==> {
                &&& ru == (Score { numerator: 0, denominator: 1 })
                &&& forall|j: int| 0 <= j < n && #[trigger] scored(stem, vids[j]) ==> score_of(stem, vids[j].stem).numerator == 0
            })
        }),
    decreases n,
{
    if n > 0 {
        lemma_best_fold_order(stem, vids, n - 1);
        lemma_best_fold_score(stem, vids, n - 1);
        let (best, ru) = best_fold(stem, vids, n - 1);
        let v = vids[n - 1];
        if scored(stem, v) {
            let s = score_of(stem, v.stem);
            lemma_score_denominator(stem, v.stem);
            match best {
                Some((b, i)) => {
                    if b.lt(s) {
                        assert(b.le(s));
                        assert forall|j: int| 0 <= j < n && #[trigger] scored(stem, vids[j]) implies score_of(stem, vids[j].stem).le(s) by {
                            lemma_score_denominator(stem, vids[j].stem);
                            if j < n - 1 {
                                lemma_le_trans(score_of(stem, vids[j].stem), b, s);
                            }
                        }
                        assert forall|j: int| 0 <= j < n && j != n - 1 && #[trigger] scored(stem, vids[j]) implies score_of(stem, vids[j].stem).le(b) by {
                        }
                    } else if ru.lt(s) {
                        assert(s.le(b));
                        assert forall|j: int| 0 <= j < n && j != i && #[trigger] scored(stem, vids[j]) implies score_of(stem, vids[j].stem).le(s) by {
                            lemma_score_denominator(stem, vids[j].stem);
                            if j < n - 1 {
                                lemma_le_trans(score_of(stem, vids[j].stem), ru, s);
                            }
                        }
                    } else {
                    }
                },
                None => {
                    if s.numerator > 0 {
                        let (sn, sd) = (s.numerator as int, s.denominator as int);
                        assert(0 * sd <= sn * 1) by (nonlinear_arith)
                            requires
                                sn > 0,
                        ;
                        assert(ru.le(s));
                        assert forall|j: int| 0 <= j < n && j != n - 1 && #[trigger] scored(stem, vids[j]) implies score_of(stem, vids[j].stem).le(ru) by {
                        }
                        assert forall|j: int| 0 <= j < n && #[trigger] scored(stem, vids[j]) implies score_of(stem, vids[j].stem).le(s) by {
                            lemma_score_denominator(stem, vids[j].stem);
                            let t = score_of(stem, vids[j].stem);
                            if j < n - 1 {
                                assert(t.numerator == 0);
                                let (tn, td, sn, sd) = (t.numerator as int, t.denominator as int, s.numerator as int, s.denominator as int);
                                assert(tn * sd <= sn * td) by (nonlinear_arith)
                                    requires
                                        tn == 0,
                                        sn >= 0,
                                        td >= 0,
                                ;
                            } else {
                                assert(t == s);
                            }
                        }
                    }
                },
            }
        }
    }
}

proof fn lemma_best_fold_score(stem: Seq<char>, vids: Seq<CandidateView>, n: int)
    requires
        0 <= n <= vids.len(),
    ensures
        best_fold(stem, vids, n).0 matches Some((b, i)) ==> 0 <= i < n && b == score_of(stem, vids[i].stem),
    decreases n,
{
    if n > 0 {
        lemma_best_fold_score(stem, vids, n - 1);
    }
}

} // verus!
