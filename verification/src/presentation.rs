//! The vocabulary the interfaces speak: match levels, human wording, demo data.
//!
//! Planning deals in scores and enums. Everything here turns those into the
//! words a person reads, so the front-ends never disagree about what a result
//! is called.

use vstd::prelude::*;

use crate::planning::{
    balanced_min_score, cautious_min_score, plan_virtual_files, relaxed_min_score, PlanOptions,
    RenamePlan,
};
use crate::similarity::Score;
use crate::text::views;

verus! {

/// Pick the singular or plural wording for `count`.
pub fn plural<'a>(count: usize, one: &'a str, many: &'a str) -> (r: &'a str)
    ensures
        r == if count == 1 {
            one
        } else {
            many
        },
{
    if count == 1 {
        one
    } else {
        many
    }
}

/// How eager the fuzzy matcher should be.
///
/// A named level rather than a raw threshold: a fraction means nothing to a
/// person, "balanced" does. Episode-id matches ignore the level entirely.
#[derive(Clone, Copy, Debug, PartialEq, Eq, Structural)]
pub enum MatchLevel {
    Relaxed,
    Balanced,
    Cautious,
}

impl Default for MatchLevel {
    fn default() -> (r: MatchLevel)
        ensures
            r == MatchLevel::Balanced,
    {
        MatchLevel::Balanced
    }
}

/// The position of a level in the order relaxed, balanced, cautious.
pub open spec fn level_position(level: MatchLevel) -> int {
    match level {
        MatchLevel::Relaxed => 0,
        MatchLevel::Balanced => 1,
        MatchLevel::Cautious => 2,
    }
}

/// The fuzzy threshold a level stands for.
pub open spec fn level_score(level: MatchLevel) -> Score {
    match level {
        MatchLevel::Relaxed => Score { numerator: 60, denominator: 100 },
        MatchLevel::Balanced => Score { numerator: 72, denominator: 100 },
        MatchLevel::Cautious => Score { numerator: 84, denominator: 100 },
    }
}

impl MatchLevel {
    /// Every level, from the most eager to the most careful.
    pub fn all() -> (r: [MatchLevel; 3])
        ensures
            r@ == seq![MatchLevel::Relaxed, MatchLevel::Balanced, MatchLevel::Cautious],
    {
        [MatchLevel::Relaxed, MatchLevel::Balanced, MatchLevel::Cautious]
    }

    pub fn score(self) -> (r: Score)
        ensures
            r == level_score(self),
    {
        match self {
            MatchLevel::Relaxed => relaxed_min_score(),
            MatchLevel::Balanced => balanced_min_score(),
            MatchLevel::Cautious => cautious_min_score(),
        }
    }

    pub fn label(self) -> (r: &'static str)
        ensures
            r@ == match self {
                MatchLevel::Relaxed => "Relaxed"@,
                MatchLevel::Balanced => "Balanced"@,
                MatchLevel::Cautious => "Cautious"@,
            },
    {
        match self {
            MatchLevel::Relaxed => "Relaxed",
            MatchLevel::Balanced => "Balanced",
            MatchLevel::Cautious => "Cautious",
        }
    }

    pub fn hint(self) -> (r: &'static str)
        ensures
            r@ == match self {
                MatchLevel::Relaxed => "Matches more, for messy naming"@,
                MatchLevel::Balanced => "Recommended, balanced coverage"@,
                MatchLevel::Cautious => "Only near-certain matches"@,
            },
    {
        match self {
            MatchLevel::Relaxed => "Matches more, for messy naming",
            MatchLevel::Balanced => "Recommended, balanced coverage",
            MatchLevel::Cautious => "Only near-certain matches",
        }
    }

    /// Where the level sits in [`MatchLevel::all`].
    pub fn index(self) -> (r: usize)
        ensures
            r == level_position(self),
    {
        match self {
            MatchLevel::Relaxed => 0,
            MatchLevel::Balanced => 1,
            MatchLevel::Cautious => 2,
        }
    }

    /// The level at `index` in [`MatchLevel::all`], or the default past the end.
    pub fn from_index(index: usize) -> (r: MatchLevel)
        ensures
            index < 3 ==> level_position(r) == index,
            index >= 3 ==> r == MatchLevel::Balanced,
    {
        if index == 0 {
            MatchLevel::Relaxed
        } else if index == 1 {
            MatchLevel::Balanced
        } else if index == 2 {
            MatchLevel::Cautious
        } else {
            MatchLevel::default()
        }
    }
}

/// A level survives the trip through its index.
pub proof fn lemma_level_round_trip(level: MatchLevel)
    ensures
        level_position(level) < 3,
        forall|r: MatchLevel| level_position(r) == level_position(level) ==> r == level,
{
}

/// The levels get stricter in order: each asks for a higher score than the one
/// before it.
pub proof fn lemma_levels_stricter(a: MatchLevel, b: MatchLevel)
    requires
        level_position(a) < level_position(b),
    ensures
        level_score(a).lt(level_score(b)),
{
}

/// A self-contained sample library for the demo mode.
///
/// These names cover what the interface has to report: episode matches,
/// language tags that get dropped on the way to the target name, and one
/// subtitle that matches nothing at all.
pub fn demo_files() -> (r: Vec<&'static str>)
    ensures
        r@.map_values(|name: &str| name@) == demo_names(),
{
    let r = vec![
        "Nebula.Archive.S01E01.2160p.WEB-DL.mkv",
        "Nebula.Archive.S01E02.2160p.WEB-DL.mkv",
        "Nebula.Archive.S01E03.2160p.WEB-DL.mkv",
        "Nebula.Archive.S01E01.zh-en.srt",
        "Nebula.Archive.S01E02.chs.ass",
        "Nebula.Archive.S01E03.eng.srt",
        "Unsorted.Bonus.Feature.srt",
    ];
    assert(r@.map_values(|name: &str| name@) =~= demo_names());
    r
}

/// The names of the demo library.
pub open spec fn demo_names() -> Seq<Seq<char>> {
    seq![
        "Nebula.Archive.S01E01.2160p.WEB-DL.mkv"@,
        "Nebula.Archive.S01E02.2160p.WEB-DL.mkv"@,
        "Nebula.Archive.S01E03.2160p.WEB-DL.mkv"@,
        "Nebula.Archive.S01E01.zh-en.srt"@,
        "Nebula.Archive.S01E02.chs.ass"@,
        "Nebula.Archive.S01E03.eng.srt"@,
        "Unsorted.Bonus.Feature.srt"@,
    ]
}

/// Build the demo plan without touching the filesystem.
pub fn demo_plan() -> (r: RenamePlan)
    ensures
        crate::planning::plan_view(r) == crate::planning::whole_plan(
            crate::planning::virtual_root(),
            crate::planning::listing_groups(
                crate::planning::virtual_root(),
                demo_names(),
                crate::planning::extension_forms(crate::planning::video_extensions_spec()),
                crate::planning::extension_forms(crate::planning::subtitle_extensions_spec()),
                7,
            ),
            false,
            false,
            Score { numerator: 72, denominator: 100 },
        ),
{
    let files = demo_files();
    let options = PlanOptions::default();
    let listing = files.as_slice();
    assert(listing@.map_values(|name: &str| name@) == demo_names());
    assert(views(options.video_exts@) == crate::planning::video_extensions_spec());
    assert(views(options.sub_exts@) == crate::planning::subtitle_extensions_spec());
    let r = plan_virtual_files(listing, &options);
    r
}

} // verus!
