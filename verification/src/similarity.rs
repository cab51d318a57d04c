//! Ratcliff/Obershelp string similarity, as `difflib.SequenceMatcher.ratio`
//! computes it, including its "autojunk" heuristic for long sequences.
//!
//! The measure is asymmetric: junk detection only ever looks at `b`, so the
//! argument order matters. Everywhere in this crate `a` is the subtitle stem and
//! `b` is the video stem.
//!
//! Matching one subtitle against every video in a folder compares the same `b`
//! over and over, so the parts that depend only on `b` live in [`Target`], built
//! once per video. [`Scratch`] holds the working buffers, so a whole folder is
//! scored without allocating per comparison.
//!
//! A score is kept exact, as a fraction: twice the number of matched characters
//! over the combined length.

use vstd::prelude::*;

use crate::counting::{
    char_limit, count, distinct, has_code, lemma_count_bounds, lemma_distinct,
    lemma_list_sum_is_range_sum, lemma_list_sum_prefix, lemma_shared_bounds, lemma_shared_self,
    lemma_shared_split, list_sum, shared, smaller,
};
use crate::text::chars_of;

verus! {

// ------------------------------------------------------------------- scores

/// A similarity score, `numerator / denominator`, with `denominator > 0`.
#[derive(Clone, Copy, Debug, PartialEq, Eq)]
pub struct Score {
    pub numerator: usize,
    pub denominator: usize,
}

impl Score {
    pub open spec fn wf(self) -> bool {
        self.denominator > 0 && self.numerator <= self.denominator
    }

    /// `self < other`, exactly.
    pub open spec fn lt(self, other: Score) -> bool {
        self.numerator * other.denominator < other.numerator * self.denominator
    }

    /// `self <= other`, exactly.
    pub open spec fn le(self, other: Score) -> bool {
        self.numerator * other.denominator <= other.numerator * self.denominator
    }

    /// The zero score.
    pub fn zero() -> (r: Score)
        ensures
            r == (Score { numerator: 0, denominator: 1 }),
    {
        Score { numerator: 0, denominator: 1 }
    }

    /// Whether `self < other`.
    pub fn less_than(&self, other: &Score) -> (r: bool)
        ensures
            r == self.lt(*other),
    {
        proof {
            lemma_product_fits(self.numerator as u128, other.denominator as u128);
            lemma_product_fits(other.numerator as u128, self.denominator as u128);
        }
        (self.numerator as u128) * (other.denominator as u128) < (other.numerator as u128) * (
        self.denominator as u128)
    }

    /// Whether `self <= other`.
    pub fn at_most(&self, other: &Score) -> (r: bool)
        ensures
            r == self.le(*other),
    {
        proof {
            lemma_product_fits(self.numerator as u128, other.denominator as u128);
            lemma_product_fits(other.numerator as u128, self.denominator as u128);
        }
        (self.numerator as u128) * (other.denominator as u128) <= (other.numerator as u128) * (
        self.denominator as u128)
    }
}

/// Scores compare as the fractions they stand for: `<=` chains.
pub proof fn lemma_le_trans(x: Score, y: Score, z: Score)
    requires
        x.denominator > 0,
        y.denominator > 0,
        z.denominator > 0,
        x.le(y),
        y.le(z),
    ensures
        x.le(z),
{
    let (xn, xd, yn, yd, zn, zd) = (x.numerator as int, x.denominator as int, y.numerator as int, y.denominator as int, z.numerator as int, z.denominator as int);
    assert(xn * yd * zd <= yn * xd * zd) by (nonlinear_arith)
        requires
            xn * yd <= yn * xd,
            zd > 0,
    ;
    assert(yn * zd * xd <= zn * yd * xd) by (nonlinear_arith)
        requires
            yn * zd <= zn * yd,
            xd > 0,
    ;
    assert(xn * zd * yd <= zn * xd * yd) by (nonlinear_arith)
        requires
            xn * yd * zd <= yn * xd * zd,
            yn * zd * xd <= zn * yd * xd,
    ;
    assert(xn * zd <= zn * xd) by (nonlinear_arith)
        requires
            xn * zd * yd <= zn * xd * yd,
            yd > 0,
    ;
}

proof fn lemma_product_fits(x: u128, y: u128)
    requires
        x <= u64::MAX,
        y <= u64::MAX,
    ensures
        x * y <= u128::MAX,
{
    assert(x * y <= u64::MAX * u64::MAX) by (nonlinear_arith)
        requires
            x <= u64::MAX,
            y <= u64::MAX,
    ;
}

/// `2 * matched / total`, or zero when there is nothing to compare.
pub open spec fn fraction(matched: int, total: int) -> Score {
    if total <= 0 {
        Score { numerator: 0, denominator: 1 }
    } else {
        Score { numerator: (2 * matched) as usize, denominator: total as usize }
    }
}

// -------------------------------------------------------------- the index

/// Whether `c` is kept in the index of `b`: a sequence of 200 elements or more
/// drops every element that fills more than 1% of its positions (difflib's
/// autojunk).
pub open spec fn indexed(b: Seq<char>, c: char) -> bool {
    b.len() < 200 || count(b, c as int) <= b.len() / 100 + 1
}

/// `positions[start..end]` lists, in ascending order, exactly the positions of
/// `c` in `b`.
pub open spec fn positions_of(
    b: Seq<char>,
    positions: Seq<usize>,
    c: char,
    start: int,
    end: int,
) -> bool {
    &&& 0 <= start <= end <= positions.len()
    &&& forall|t: int| start <= t < end ==> #[trigger] positions[t] < b.len() && b[positions[t] as int] == c
    &&& forall|t1: int, t2: int| start <= t1 < t2 < end ==> #[trigger] positions[t1] < #[trigger] positions[t2]
    &&& forall|j: int| 0 <= j < b.len() && b[j] == c ==> exists|t: int| start <= t < end && #[trigger] positions[t] == j
}

/// The `b` side of a comparison, indexed once so it can be scored against many
/// `a`s.
pub struct Target {
    b: Vec<char>,
    /// Positions of each indexed element of `b`, grouped by element.
    positions: Vec<usize>,
    /// For each indexed element, its ascending run in `positions`.
    ranges: Vec<(char, usize, usize)>,
    /// Each distinct element of `b`, junk included, with how often it occurs.
    counts: Vec<(char, usize)>,
}

impl View for Target {
    type V = Seq<char>;

    closed spec fn view(&self) -> Seq<char> {
        self.b@
    }
}

impl Target {
    /// The index agrees with `b`.
    pub closed spec fn wf(&self) -> bool {
        &&& self.counts@.map_values(|e: (char, usize)| e.0) == distinct(self.b@)
        &&& forall|k: int| 0 <= k < self.counts@.len() ==> #[trigger] self.counts@[k].1 == count(self.b@, self.counts@[k].0 as int)
        &&& forall|k: int| 0 <= k < self.ranges@.len() ==> {
            &&& indexed(self.b@, #[trigger] self.ranges@[k].0)
            &&& positions_of(self.b@, self.positions@, self.ranges@[k].0, self.ranges@[k].1 as int, self.ranges@[k].2 as int)
        }
        &&& forall|j: int| 0 <= j < self.b@.len() && indexed(self.b@, #[trigger] self.b@[j]) ==> exists|k: int| 0 <= k < self.ranges@.len() && #[trigger] self.ranges@[k].0 == self.b@[j]
    }

    pub fn new(b: &[char]) -> (r: Target)
        ensures
            r@ == b@,
            r.wf(),
    {
        let mut elements: Vec<char> = Vec::new();
        let mut index: usize = 0;
        while index < b.len()
            invariant
                index <= b.len(),
                elements@ == b@.take(index as int),
            decreases b.len() - index,
        {
            elements.push(b[index]);
            index += 1;
        }
        assert(elements@ =~= b@);
        let counts = count_elements(&elements);
        let limit: usize = if elements.len() >= 200 { elements.len() / 100 + 1 } else { elements.len() };
        let mut positions: Vec<usize> = Vec::new();
        let mut ranges: Vec<(char, usize, usize)> = Vec::new();
        let mut k: usize = 0;
        while k < counts.len()
            invariant
                k <= counts.len(),
                elements@ == b@,
                limit == if b@.len() >= 200 { (b@.len() / 100 + 1) as int } else { b@.len() as int },
                counts@.map_values(|e: (char, usize)| e.0) == distinct(b@),
                forall|m: int| 0 <= m < counts@.len() ==> #[trigger] counts@[m].1 == count(b@, counts@[m].0 as int),
                forall|m: int| 0 <= m < ranges@.len() ==> {
                    &&& indexed(b@, #[trigger] ranges@[m].0)
                    &&& positions_of(b@, positions@, ranges@[m].0, ranges@[m].1 as int, ranges@[m].2 as int)
                },
                forall|m: int| 0 <= m < k && indexed(b@, #[trigger] counts@[m].0) ==> exists|q: int| 0 <= q < ranges@.len() && #[trigger] ranges@[q].0 == counts@[m].0,
            decreases counts.len() - k,
        {
            let (element, occurrences) = counts[k];
            proof {
                lemma_count_bounds(b@, element as int);
            }
            if occurrences <= limit {
                let start = positions.len();
                let ghost before = positions@;
                let mut j: usize = 0;
                while j < elements.len()
                    invariant
                        j <= elements.len(),
                        elements@ == b@,
                        start == before.len(),
                        positions@.len() >= start,
                        positions@.subrange(0, start as int) == before,
                        forall|t: int| start <= t < positions@.len() ==> #[trigger] positions@[t] < j && b@[positions@[t] as int] == element,
                        forall|t1: int, t2: int| start <= t1 < t2 < positions@.len() ==> #[trigger] positions@[t1] < #[trigger] positions@[t2],
                        forall|i: int| 0 <= i < j && b@[i] == element ==> exists|t: int| start <= t < positions@.len() && #[trigger] positions@[t] == i,
                    decreases elements.len() - j,
                {
                    let ghost old_positions = positions@;
                    if elements[j] == element {
                        positions.push(j);
                    }
                    assert forall|i: int| 0 <= i < j + 1 && b@[i] == element implies exists|t: int| start <= t < positions@.len() && #[trigger] positions@[t] == i by {
                        if i == j {
                            assert(positions@[positions@.len() - 1] == i);
                        } else {
                            let t = choose|t: int| start <= t < old_positions.len() && #[trigger] old_positions[t] == i;
                            assert(positions@[t] == old_positions[t]);
                        }
                    }
                    assert(positions@.subrange(0, start as int) =~= before);
                    j += 1;
                }
                let end = positions.len();
                assert forall|m: int| 0 <= m < ranges@.len() implies positions_of(b@, positions@, #[trigger] ranges@[m].0, ranges@[m].1 as int, ranges@[m].2 as int) by {
                    let (c, s, e) = ranges@[m];
                    assert(positions_of(b@, before, c, s as int, e as int));
                    assert forall|t: int| s <= t < e implies #[trigger] positions@[t] == before[t] by {
                        assert(positions@.subrange(0, start as int)[t] == before[t]);
                    }
                    assert forall|i: int| 0 <= i < b@.len() && b@[i] == c implies exists|t: int| s <= t < e && #[trigger] positions@[t] == i by {
                        let t = choose|t: int| s <= t < e && #[trigger] before[t] == i;
                        assert(positions@[t] == before[t]);
                    }
                }
                let ghost old_ranges = ranges@;
                ranges.push((element, start, end));
                assert(ranges@[ranges@.len() - 1].0 == element);
                assert forall|m: int| 0 <= m < k + 1 && indexed(b@, #[trigger] counts@[m].0) implies exists|q: int| 0 <= q < ranges@.len() && #[trigger] ranges@[q].0 == counts@[m].0 by {
                    if m == k {
                        assert(ranges@[ranges@.len() - 1].0 == counts@[m].0);
                    } else {
                        let q = choose|q: int| 0 <= q < old_ranges.len() && #[trigger] old_ranges[q].0 == counts@[m].0;
                        assert(ranges@[q] == old_ranges[q]);
                    }
                }
            } else {
                assert(!indexed(b@, element));
            }
            k += 1;
        }
        proof {
            lemma_distinct(b@);
            assert forall|j: int| 0 <= j < b@.len() && indexed(b@, #[trigger] b@[j]) implies exists|q: int| 0 <= q < ranges@.len() && #[trigger] ranges@[q].0 == b@[j] by {
                assert(b@.contains(b@[j]));
                assert(distinct(b@).contains(b@[j]));
                let m = choose|m: int| 0 <= m < distinct(b@).len() && distinct(b@)[m] == b@[j];
                assert(counts@.map_values(|e: (char, usize)| e.0)[m] == counts@[m].0);
                assert(counts@[m].0 == b@[j]);
                assert(indexed(b@, counts@[m].0));
                let q = choose|q: int| 0 <= q < ranges@.len() && #[trigger] ranges@[q].0 == counts@[m].0;
                assert(ranges@[q].0 == b@[j]);
            }
        }
        let ghost ranges_view = ranges@;
        let r = Target { b: elements, positions, ranges, counts };
        assert(r.counts@.map_values(|e: (char, usize)| e.0) == distinct(r.b@));
        assert(forall|k: int| 0 <= k < r.counts@.len() ==> #[trigger] r.counts@[k].1 == count(r.b@, r.counts@[k].0 as int));
        assert(forall|k: int| 0 <= k < r.ranges@.len() ==> {
            &&& indexed(r.b@, #[trigger] r.ranges@[k].0)
            &&& positions_of(r.b@, r.positions@, r.ranges@[k].0, r.ranges@[k].1 as int, r.ranges@[k].2 as int)
        });
        assert(r.b@ == b@);
        assert(r.ranges@ == ranges_view);
        r
    }

    pub fn is_empty(&self) -> (r: bool)
        ensures
            r == (self@.len() == 0),
    {
        self.b.len() == 0
    }

    pub fn len(&self) -> (r: usize)
        ensures
            r == self@.len(),
    {
        self.b.len()
    }

    /// How often `element` occurs in `b`.
    fn count_of(&self, element: char) -> (r: usize)
        requires
            self.wf(),
        ensures
            r == count(self@, element as int),
    {
        lookup_count(&self.counts, element, Ghost(self.b@))
    }
}

/// The distinct elements of `s` in order of first occurrence, with their counts.
fn count_elements(s: &Vec<char>) -> (r: Vec<(char, usize)>)
    ensures
        r@.map_values(|e: (char, usize)| e.0) == distinct(s@),
        forall|k: int| 0 <= k < r@.len() ==> #[trigger] r@[k].1 == count(s@, r@[k].0 as int),
{
    let mut counts: Vec<(char, usize)> = Vec::new();
    let mut index: usize = 0;
    while index < s.len()
        invariant
            index <= s.len(),
            counts@.map_values(|e: (char, usize)| e.0) == distinct(s@.take(index as int)),
            forall|k: int| 0 <= k < counts@.len() ==> #[trigger] counts@[k].1 == count(s@.take(index as int), counts@[k].0 as int),
        decreases s.len() - index,
    {
        let element = s[index];
        let ghost prefix = s@.take(index as int);
        let ghost next = s@.take(index + 1);
        assert(next.drop_last() =~= prefix);
        assert(next.last() == element);
        let mut k: usize = 0;
        while k < counts.len() && counts[k].0 != element
            invariant
                k <= counts.len(),
                forall|m: int| 0 <= m < k ==> #[trigger] counts@[m].0 != element,
            decreases counts.len() - k,
        {
            k += 1;
        }
        proof {
            lemma_count_bounds(prefix, element as int);
            lemma_count_bounds(s@, element as int);
            lemma_distinct(prefix);
        }
        if k < counts.len() {
            assert(distinct(prefix)[k as int] == element);
            assert(distinct(prefix).contains(element));
            assert(count(prefix, element as int) < s.len()) by {
                lemma_count_bounds(prefix, element as int);
            }
            let updated = counts[k].1 + 1;
            let ghost old_counts = counts@;
            counts.set(k, (element, updated));
            assert(counts@.map_values(|e: (char, usize)| e.0) =~= distinct(next));
            assert forall|m: int| 0 <= m < counts@.len() implies #[trigger] counts@[m].1 == count(
                next,
                counts@[m].0 as int,
            ) by {
                assert(old_counts.map_values(|e: (char, usize)| e.0)[m] == old_counts[m].0);
                if m != k {
                    assert(distinct(prefix)[m] != distinct(prefix)[k as int]);
                    assert(old_counts[m].1 == count(prefix, old_counts[m].0 as int));
                }
            }
        } else {
            assert forall|m: int| 0 <= m < distinct(prefix).len() implies distinct(prefix)[m] != element by {
                assert(counts@.map_values(|e: (char, usize)| e.0)[m] == counts@[m].0);
            }
            let ghost old_counts = counts@;
            counts.push((element, 1));
            assert(counts@.map_values(|e: (char, usize)| e.0) =~= distinct(next));
            assert forall|m: int| 0 <= m < counts@.len() implies #[trigger] counts@[m].1 == count(
                next,
                counts@[m].0 as int,
            ) by {
                if m < old_counts.len() {
                    assert(old_counts.map_values(|e: (char, usize)| e.0)[m] == old_counts[m].0);
                    assert(old_counts[m].1 == count(prefix, old_counts[m].0 as int));
                    assert(old_counts[m].0 != element);
                } else if count(prefix, element as int) > 0 {
                    let j = choose|j: int| 0 <= j < prefix.len() && #[trigger] prefix[j] as int == element as int;
                    assert(prefix[j] == element);
                    assert(prefix.contains(element));
                    assert(distinct(prefix).contains(element));
                    let q = choose|q: int| 0 <= q < distinct(prefix).len() && distinct(prefix)[q] == element;
                    assert(false);
                }
            }
        }
        index += 1;
    }
    assert(s@.take(index as int) =~= s@);
    counts
}

/// The count stored for `element`, or zero when it has no entry.
fn lookup_count(counts: &Vec<(char, usize)>, element: char, Ghost(s): Ghost<Seq<char>>) -> (r: usize)
    requires
        counts@.map_values(|e: (char, usize)| e.0) == distinct(s),
        forall|k: int| 0 <= k < counts@.len() ==> #[trigger] counts@[k].1 == count(s, counts@[k].0 as int),
    ensures
        r == count(s, element as int),
{
    let mut k: usize = 0;
    while k < counts.len()
        invariant
            k <= counts.len(),
            forall|m: int| 0 <= m < k ==> #[trigger] counts@[m].0 != element,
            counts@.map_values(|e: (char, usize)| e.0) == distinct(s),
            forall|m: int| 0 <= m < counts@.len() ==> #[trigger] counts@[m].1 == count(s, counts@[m].0 as int),
        decreases counts.len() - k,
    {
        if counts[k].0 == element {
            assert(counts@[k as int].1 == count(s, counts@[k as int].0 as int));
            return counts[k].1;
        }
        k += 1;
    }
    proof {
        lemma_distinct(s);
        lemma_count_bounds(s, element as int);
        if count(s, element as int) > 0 {
            let j = choose|j: int| 0 <= j < s.len() && #[trigger] s[j] as int == element as int;
            assert(s.contains(s[j]));
            assert(distinct(s).contains(element));
            let m = choose|m: int| 0 <= m < distinct(s).len() && distinct(s)[m] == element;
            assert(counts@.map_values(|e: (char, usize)| e.0)[m] == counts@[m].0);
        }
    }
    0
}

// ----------------------------------------------------------- the bound

/// How often each character occurs in an `a`, for [`Target::ratio_bound`].
pub struct CharCounts {
    counts: Vec<(char, usize)>,
    total: usize,
    source: Ghost<Seq<char>>,
}

impl View for CharCounts {
    type V = Seq<char>;

    closed spec fn view(&self) -> Seq<char> {
        self.source@
    }
}

impl CharCounts {
    pub closed spec fn wf(&self) -> bool {
        &&& self.counts@.map_values(|e: (char, usize)| e.0) == distinct(self.source@)
        &&& forall|k: int| 0 <= k < self.counts@.len() ==> #[trigger] self.counts@[k].1 == count(self.source@, self.counts@[k].0 as int)
        &&& self.total == self.source@.len()
    }

    pub fn new(a: &[char]) -> (r: CharCounts)
        ensures
            r@ == a@,
            r.wf(),
    {
        let mut elements: Vec<char> = Vec::new();
        let mut index: usize = 0;
        while index < a.len()
            invariant
                index <= a.len(),
                elements@ == a@.take(index as int),
            decreases a.len() - index,
        {
            elements.push(a[index]);
            index += 1;
        }
        assert(elements@ =~= a@);
        CharCounts { counts: count_elements(&elements), total: a.len(), source: Ghost(a@) }
    }

    fn count_of(&self, element: char) -> (r: usize)
        requires
            self.wf(),
        ensures
            r == count(self@, element as int),
    {
        lookup_count(&self.counts, element, self.source)
    }
}

/// The highest score `a` could reach against `b`: every matched character pairs
/// one character of `a` with a distinct equal character of `b`.
pub open spec fn bound_of(a: Seq<char>, b: Seq<char>) -> Score {
    if a.len() == 0 || b.len() == 0 {
        Score { numerator: 0, denominator: 1 }
    } else {
        fraction(shared(a, b) as int, (a.len() + b.len()) as int)
    }
}

impl Target {
    /// The highest ratio `a` could possibly reach here, from character counts alone.
    ///
    /// Cheap to compute, and it lets a hopeless video be dropped without running
    /// the quadratic search.
    pub fn ratio_bound(&self, counts: &CharCounts) -> (r: Score)
        requires
            self.wf(),
            counts.wf(),
            counts@.len() + self@.len() <= usize::MAX,
        ensures
            r == bound_of(counts@, self@),
    {
        if counts.total == 0 || self.b.len() == 0 {
            return Score::zero();
        }
        let ghost a = counts@;
        let ghost b = self@;
        let ghost f = |x: int| smaller(count(a, x), count(b, x));
        let mut shared_count: usize = 0;
        if counts.counts.len() <= self.counts.len() {
            let mut k: usize = 0;
            while k < counts.counts.len()
                invariant
                    k <= counts.counts.len(),
                    counts.wf(),
                    self.wf(),
                    a == counts@,
                    b == self@,
                    f == (|x: int| smaller(count(a, x), count(b, x))),
                    shared_count == list_sum(f, distinct(a).take(k as int)),
                decreases counts.counts.len() - k,
            {
                let (element, occurrences) = counts.counts[k];
                let theirs = self.count_of(element);
                assert(occurrences == count(a, element as int));
                assert(f(element as int) == if occurrences <= theirs { occurrences } else { theirs });
                assert(distinct(a).take(k + 1).drop_last() =~= distinct(a).take(k as int));
                assert(counts.counts@.map_values(|e: (char, usize)| e.0)[k as int] == element);
                proof {
                    lemma_shared_over(a, b, a);
                    lemma_list_sum_prefix(f, distinct(a), k + 1);
                    lemma_shared_bounds(a, b);
                }
                shared_count = shared_count + if occurrences <= theirs { occurrences } else { theirs };
                k += 1;
            }
            assert(distinct(a).take(k as int) =~= distinct(a));
            proof {
                lemma_shared_over(a, b, a);
                lemma_shared_bounds(a, b);
            }
        } else {
            let mut k: usize = 0;
            while k < self.counts.len()
                invariant
                    k <= self.counts.len(),
                    counts.wf(),
                    self.wf(),
                    a == counts@,
                    b == self@,
                    f == (|x: int| smaller(count(a, x), count(b, x))),
                    shared_count == list_sum(f, distinct(b).take(k as int)),
                decreases self.counts.len() - k,
            {
                let (element, occurrences) = self.counts[k];
                let theirs = counts.count_of(element);
                assert(occurrences == count(b, element as int));
                assert(f(element as int) == if occurrences <= theirs { occurrences } else { theirs });
                assert(distinct(b).take(k + 1).drop_last() =~= distinct(b).take(k as int));
                assert(self.counts@.map_values(|e: (char, usize)| e.0)[k as int] == element);
                proof {
                    lemma_shared_over(a, b, b);
                    lemma_list_sum_prefix(f, distinct(b), k + 1);
                    lemma_shared_bounds(a, b);
                }
                shared_count = shared_count + if occurrences <= theirs { occurrences } else { theirs };
                k += 1;
            }
            assert(distinct(b).take(k as int) =~= distinct(b));
            proof {
                lemma_shared_over(a, b, b);
                lemma_shared_bounds(a, b);
            }
        }
        Score { numerator: 2 * shared_count, denominator: counts.total + self.b.len() }
    }
}

/// The shared count is the sum, over the distinct characters of either side, of
/// the smaller count.
proof fn lemma_shared_over(a: Seq<char>, b: Seq<char>, side: Seq<char>)
    requires
        side == a || side == b,
    ensures
        list_sum(|x: int| smaller(count(a, x), count(b, x)), distinct(side)) == shared(a, b),
{
    lemma_distinct(side);
    let f = |x: int| smaller(count(a, x), count(b, x));
    assert forall|x: int| 0 <= x < char_limit() && !has_code(distinct(side), x) implies #[trigger] f(x) == 0 by {
        lemma_count_bounds(side, x);
        if count(side, x) > 0 {
            let k = choose|k: int| 0 <= k < side.len() && #[trigger] side[k] as int == x;
            assert(side.contains(side[k]));
            assert(distinct(side).contains(side[k]));
            let m = choose|m: int| 0 <= m < distinct(side).len() && distinct(side)[m] == side[k];
            assert(distinct(side)[m] as int == x);
        }
    }
    lemma_list_sum_is_range_sum(f, distinct(side));
}

// ------------------------------------------------------- matching blocks

/// The length of the run of equal, indexed pairs that ends at `(i, j)`, counting
/// only pairs at or after `(alo, blo)`.
pub open spec fn run(a: Seq<char>, b: Seq<char>, alo: int, blo: int, i: int, j: int) -> nat
    decreases i + 1 - alo,
{
    if i < alo || j < blo || i >= a.len() || j >= b.len() || a[i] != b[j] || !indexed(b, b[j]) {
        0
    } else {
        1 + run(a, b, alo, blo, i - 1, j - 1)
    }
}

/// `(i, j)` lies in the window and comes before `(il, jl)` in row-major order.
pub open spec fn covered(alo: int, ahi: int, blo: int, bhi: int, il: int, jl: int, i: int, j: int) -> bool {
    alo <= i < ahi && blo <= j < bhi && (i < il || (i == il && j < jl))
}

pub open spec fn lex_le(i1: int, j1: int, i2: int, j2: int) -> bool {
    i1 < i2 || (i1 == i2 && j1 <= j2)
}

/// `(bi, bj, k)` is the longest indexed block among the covered cells, the
/// earliest one when several are longest: the block ending at the first cell,
/// in row-major order, whose run is the largest.
pub open spec fn best_among(
    a: Seq<char>,
    b: Seq<char>,
    alo: int,
    ahi: int,
    blo: int,
    bhi: int,
    il: int,
    jl: int,
    bi: int,
    bj: int,
    k: int,
) -> bool {
    if k == 0 {
        &&& bi == alo
        &&& bj == blo
        &&& forall|i: int, j: int| covered(alo, ahi, blo, bhi, il, jl, i, j) ==> #[trigger] run(a, b, alo, blo, i, j) == 0
    } else {
        &&& k > 0
        &&& covered(alo, ahi, blo, bhi, il, jl, bi + k - 1, bj + k - 1)
        &&& run(a, b, alo, blo, bi + k - 1, bj + k - 1) == k
        &&& forall|i: int, j: int| covered(alo, ahi, blo, bhi, il, jl, i, j) ==> #[trigger] run(a, b, alo, blo, i, j) <= k
            && (run(a, b, alo, blo, i, j) == k ==> lex_le(bi + k - 1, bj + k - 1, i, j))
    }
}

/// The longest block of the window built from indexed elements only.
pub open spec fn core_ok(a: Seq<char>, b: Seq<char>, alo: int, ahi: int, blo: int, bhi: int, t: (int, int, int)) -> bool {
    best_among(a, b, alo, ahi, blo, bhi, ahi, 0, t.0, t.1, t.2)
}

pub open spec fn core_block(a: Seq<char>, b: Seq<char>, alo: int, ahi: int, blo: int, bhi: int) -> (int, int, int) {
    choose|t: (int, int, int)| core_ok(a, b, alo, ahi, blo, bhi, t)
}

/// Grow a block backwards over equal elements, indexed or not.
pub open spec fn extend_back(a: Seq<char>, b: Seq<char>, alo: int, blo: int, t: (int, int, int)) -> (int, int, int)
    decreases t.0 - alo,
{
    if alo < t.0 && blo < t.1 && t.0 <= a.len() && t.1 <= b.len() && a[t.0 - 1] == b[t.1 - 1] {
        extend_back(a, b, alo, blo, (t.0 - 1, t.1 - 1, t.2 + 1))
    } else {
        t
    }
}

/// Grow a block forwards over equal elements, indexed or not.
pub open spec fn extend_forward(a: Seq<char>, b: Seq<char>, ahi: int, bhi: int, t: (int, int, int)) -> (int, int, int)
    decreases ahi - (t.0 + t.2),
{
    if 0 <= t.0 + t.2 < ahi && 0 <= t.1 + t.2 < bhi && ahi <= a.len() && bhi <= b.len() && a[t.0 + t.2] == b[t.1 + t.2] {
        extend_forward(a, b, ahi, bhi, (t.0, t.1, t.2 + 1))
    } else {
        t
    }
}

/// The longest common block within the window, as `(a_start, b_start, len)`,
/// as difflib's `find_longest_match` finds it.
pub open spec fn longest(a: Seq<char>, b: Seq<char>, alo: int, ahi: int, blo: int, bhi: int) -> (int, int, int) {
    extend_forward(a, b, ahi, bhi, extend_back(a, b, alo, blo, core_block(a, b, alo, ahi, blo, bhi)))
}

/// The number of characters in all matching blocks of the window: the longest
/// block, then recursively the parts to its left and to its right.
pub open spec fn matched_in(a: Seq<char>, b: Seq<char>, alo: int, ahi: int, blo: int, bhi: int) -> nat
    decreases (ahi - alo) + (bhi - blo),
{
    let (i, j, k) = longest(a, b, alo, ahi, blo, bhi);
    if k > 0 && alo <= i && i + k <= ahi && blo <= j && j + k <= bhi {
        let left = if alo < i && blo < j {
            matched_in(a, b, alo, i, blo, j)
        } else {
            0
        };
        let right = if i + k < ahi && j + k < bhi {
            matched_in(a, b, i + k, ahi, j + k, bhi)
        } else {
            0
        };
        (k + left + right) as nat
    } else {
        0
    }
}

/// The number of matched characters of `a` and `b`.
pub open spec fn matched(a: Seq<char>, b: Seq<char>) -> nat {
    matched_in(a, b, 0, a.len() as int, 0, b.len() as int)
}

/// The similarity of `a` against `b`: `2 * matched / (len a + len b)`, zero when
/// either side is empty.
pub open spec fn score_of(a: Seq<char>, b: Seq<char>) -> Score {
    if a.len() == 0 || b.len() == 0 {
        Score { numerator: 0, denominator: 1 }
    } else {
        fraction(matched(a, b) as int, (a.len() + b.len()) as int)
    }
}

proof fn lemma_run_bounds(a: Seq<char>, b: Seq<char>, alo: int, blo: int, i: int, j: int)
    ensures
        run(a, b, alo, blo, i, j) <= i + 1 - alo || run(a, b, alo, blo, i, j) == 0,
        run(a, b, alo, blo, i, j) <= j + 1 - blo || run(a, b, alo, blo, i, j) == 0,
        run(a, b, alo, blo, i, j) > 0 ==> alo <= i < a.len() && blo <= j < b.len() && a[i] == b[j],
    decreases i + 1 - alo,
{
    if run(a, b, alo, blo, i, j) > 0 {
        lemma_run_bounds(a, b, alo, blo, i - 1, j - 1);
    }
}

/// Every pair inside a run is equal.
proof fn lemma_run_equal(a: Seq<char>, b: Seq<char>, alo: int, blo: int, i: int, j: int, d: int)
    requires
        0 <= alo,
        0 <= blo,
        0 <= d < run(a, b, alo, blo, i, j),
    ensures
        0 <= i - d < a.len() && 0 <= j - d < b.len() && alo <= i - d && blo <= j - d,
        a[i - d] == b[j - d],
    decreases d,
{
    lemma_run_bounds(a, b, alo, blo, i, j);
    if d > 0 {
        lemma_run_equal(a, b, alo, blo, i - 1, j - 1, d - 1);
    }
}

proof fn lemma_core_unique(a: Seq<char>, b: Seq<char>, alo: int, ahi: int, blo: int, bhi: int, t1: (int, int, int), t2: (int, int, int))
    requires
        core_ok(a, b, alo, ahi, blo, bhi, t1),
        core_ok(a, b, alo, ahi, blo, bhi, t2),
    ensures
        t1 == t2,
{
    if t1.2 > 0 {
        assert(run(a, b, alo, blo, t1.0 + t1.2 - 1, t1.1 + t1.2 - 1) == t1.2);
    }
    if t2.2 > 0 {
        assert(run(a, b, alo, blo, t2.0 + t2.2 - 1, t2.1 + t2.2 - 1) == t2.2);
    }
}

/// A block satisfying the characterisation is the chosen one.
proof fn lemma_core_is(a: Seq<char>, b: Seq<char>, alo: int, ahi: int, blo: int, bhi: int, t: (int, int, int))
    requires
        core_ok(a, b, alo, ahi, blo, bhi, t),
    ensures
        core_block(a, b, alo, ahi, blo, bhi) == t,
{
    let c = core_block(a, b, alo, ahi, blo, bhi);
    assert(core_ok(a, b, alo, ahi, blo, bhi, c));
    lemma_core_unique(a, b, alo, ahi, blo, bhi, t, c);
}

// ---------------------------------------------------------- working state

/// Working buffers reused across comparisons.
pub struct Scratch {
    /// For each element of `a`, its slice of the target's positions.
    a_ranges: Vec<(usize, usize)>,
    /// Length of the run ending at each position of `b`, for the previous row.
    previous: Vec<usize>,
    /// The same for the row being filled.
    current: Vec<usize>,
    /// Which positions each row touched, so clearing stays proportional to them.
    previous_written: Vec<usize>,
    current_written: Vec<usize>,
    queue: Vec<(usize, usize, usize, usize)>,
}

/// The range recorded for each element of `a` lists its positions in `b` when
/// the element is indexed, and is empty otherwise.
pub open spec fn ranges_for(a: Seq<char>, b: Seq<char>, positions: Seq<usize>, a_ranges: Seq<(usize, usize)>) -> bool {
    &&& a_ranges.len() == a.len()
    &&& forall|i: int| 0 <= i < a.len() ==> if indexed(b, a[i]) {
        positions_of(b, positions, a[i], (#[trigger] a_ranges[i]).0 as int, a_ranges[i].1 as int)
    } else {
        a_ranges[i].0 == a_ranges[i].1
    }
}

impl Scratch {
    pub fn new() -> (r: Scratch)
        ensures
            r.is_clean(),
    {
        Scratch {
            a_ranges: Vec::new(),
            previous: Vec::new(),
            current: Vec::new(),
            previous_written: Vec::new(),
            current_written: Vec::new(),
            queue: Vec::new(),
        }
    }

    /// Both rows are zero and no position is recorded as written.
    pub closed spec fn is_clean(&self) -> bool {
        &&& self.previous@.len() == self.current@.len()
        &&& forall|j: int| 0 <= j < self.previous@.len() ==> #[trigger] self.previous@[j] == 0
        &&& forall|j: int| 0 <= j < self.current@.len() ==> #[trigger] self.current@[j] == 0
        &&& self.previous_written@.len() == 0
        &&& self.current_written@.len() == 0
    }

    /// Clean, with ranges prepared for `a` against `target`.
    pub closed spec fn ready_for(&self, a: Seq<char>, target: &Target) -> bool {
        &&& self.is_clean()
        &&& self.previous@.len() >= target.b@.len()
        &&& ranges_for(a, target.b@, target.positions@, self.a_ranges@)
    }

    fn prepare(&mut self, a: &[char], target: &Target)
        requires
            old(self).is_clean(),
            target.wf(),
        ensures
            final(self).ready_for(a@, target),
    {
        self.a_ranges.clear();
        let mut i: usize = 0;
        while i < a.len()
            invariant
                i <= a.len(),
                target.wf(),
                self.is_clean(),
                self.a_ranges@.len() == i,
                forall|k: int| 0 <= k < i ==> if indexed(target.b@, a@[k]) {
                    positions_of(target.b@, target.positions@, a@[k], (#[trigger] self.a_ranges@[k]).0 as int, self.a_ranges@[k].1 as int)
                } else {
                    self.a_ranges@[k].0 == self.a_ranges@[k].1
                },
            decreases a.len() - i,
        {
            let range = target.range_of(a[i]);
            self.a_ranges.push(range);
            i += 1;
        }
        // Rows are cleared as they are reused, so these only ever grow.
        while self.previous.len() < target.b.len()
            invariant
                self.is_clean(),
                ranges_for(a@, target.b@, target.positions@, self.a_ranges@),
            decreases target.b@.len() - self.previous@.len(),
        {
            self.previous.push(0);
            self.current.push(0);
        }
    }
}

impl Target {
    /// The slice of `positions` that holds `element`, empty when it is not indexed.
    fn range_of(&self, element: char) -> (r: (usize, usize))
        requires
            self.wf(),
        ensures
            if indexed(self.b@, element) {
                positions_of(self.b@, self.positions@, element, r.0 as int, r.1 as int)
            } else {
                r.0 == r.1
            },
    {
        let mut k: usize = 0;
        while k < self.ranges.len()
            invariant
                k <= self.ranges.len(),
                self.wf(),
                forall|m: int| 0 <= m < k ==> #[trigger] self.ranges@[m].0 != element,
            decreases self.ranges.len() - k,
        {
            let (candidate, start, end) = self.ranges[k];
            if candidate == element {
                assert(indexed(self.b@, self.ranges@[k as int].0));
                return (start, end);
            }
            k += 1;
        }
        proof {
            if indexed(self.b@, element) {
                assert forall|j: int| 0 <= j < self.b@.len() && self.b@[j] == element implies exists|t: int| 0 <= t < 0 && #[trigger] self.positions@[t] == j by {
                    assert(indexed(self.b@, self.b@[j]));
                    let q = choose|q: int| 0 <= q < self.ranges@.len() && #[trigger] self.ranges@[q].0 == self.b@[j];
                    assert(self.ranges@[q].0 != element);
                }
            }
        }
        (0, 0)
    }
}

// --------------------------------------------------- the row-by-row search

/// Every nonzero entry of `row` is listed in `written`, and every listed
/// position lies inside `row`.
pub open spec fn written_covers(row: Seq<usize>, written: Seq<usize>) -> bool {
    &&& forall|k: int| 0 <= k < written.len() ==> #[trigger] written[k] < row.len()
    &&& forall|j: int| 0 <= j < row.len() && row[j] != 0 ==> exists|k: int| 0 <= k < written.len() && #[trigger] written[k] == j
}

proof fn lemma_covers_set(row: Seq<usize>, written: Seq<usize>, j: int, v: usize)
    requires
        written_covers(row, written),
        0 <= j < row.len(),
        j <= usize::MAX,
    ensures
        written_covers(row.update(j, v), written.push(j as usize)),
{
    let row2 = row.update(j, v);
    let written2 = written.push(j as usize);
    assert forall|j2: int| 0 <= j2 < row2.len() && row2[j2] != 0 implies exists|k: int| 0 <= k < written2.len() && #[trigger] written2[k] == j2 by {
        if j2 == j {
            assert(written2[written.len() as int] == j2);
        } else {
            assert(row[j2] != 0);
            let k = choose|k: int| 0 <= k < written.len() && #[trigger] written[k] == j2;
            assert(written2[k] == j2);
        }
    }
}

/// Zero the entries of `row` that `written` lists, and forget them.
fn clear_row(row: &mut Vec<usize>, written: &mut Vec<usize>)
    requires
        written_covers(old(row)@, old(written)@),
    ensures
        final(row)@.len() == old(row)@.len(),
        forall|j: int| 0 <= j < final(row)@.len() ==> #[trigger] final(row)@[j] == 0,
        final(written)@.len() == 0,
{
    let ghost listed = written@;
    let mut w: usize = 0;
    while w < written.len()
        invariant
            w <= written@.len(),
            written@ == listed,
            row@.len() == old(row)@.len(),
            forall|k: int| 0 <= k < listed.len() ==> #[trigger] listed[k] < row@.len(),
            forall|j: int| 0 <= j < row@.len() && row@[j] != 0 ==> exists|k: int| w <= k < listed.len() && #[trigger] listed[k] == j,
        decreases written@.len() - w,
    {
        let position = written[w];
        let ghost before = row@;
        row.set(position, 0);
        assert forall|j: int| 0 <= j < row@.len() && row@[j] != 0 implies exists|k: int| w + 1 <= k < listed.len() && #[trigger] listed[k] == j by {
            assert(before[j] != 0);
            let k = choose|k: int| w <= k < listed.len() && #[trigger] listed[k] == j;
            assert(k != w);
        }
        w += 1;
    }
    written.clear();
}

/// A position between the ones already passed and the next one to visit does
/// not hold `c`.
proof fn lemma_gap(b: Seq<char>, positions: Seq<usize>, c: char, start: int, end: int, t: int, lim: int, j: int)
    requires
        positions_of(b, positions, c, start, end),
        start <= t <= end,
        forall|u: int| start <= u < t ==> #[trigger] positions[u] < lim,
        0 <= lim <= j < b.len(),
        t < end ==> j < positions[t],
    ensures
        b[j] != c,
{
    if b[j] == c {
        let u = choose|u: int| start <= u < end && #[trigger] positions[u] == j;
        if u > t {
            assert(positions[t] < positions[u]);
        }
    }
}

/// Covering more cells of the row, all of which have no run, keeps the best.
proof fn lemma_best_skip(a: Seq<char>, b: Seq<char>, alo: int, ahi: int, blo: int, bhi: int, i: int, jl: int, jl2: int, t: (int, int, int))
    requires
        best_among(a, b, alo, ahi, blo, bhi, i, jl, t.0, t.1, t.2),
        jl <= jl2,
        forall|j: int| jl <= j < jl2 && blo <= j < bhi ==> #[trigger] run(a, b, alo, blo, i, j) == 0,
    ensures
        best_among(a, b, alo, ahi, blo, bhi, i, jl2, t.0, t.1, t.2),
{
    if t.2 == 0 {
        assert forall|i2: int, j2: int| covered(alo, ahi, blo, bhi, i, jl2, i2, j2) implies #[trigger] run(a, b, alo, blo, i2, j2) == 0 by {
            if !covered(alo, ahi, blo, bhi, i, jl, i2, j2) {
                assert(i2 == i && jl <= j2 < jl2);
            }
        }
    } else {
        assert forall|i2: int, j2: int| covered(alo, ahi, blo, bhi, i, jl2, i2, j2) implies #[trigger] run(a, b, alo, blo, i2, j2) <= t.2
            && (run(a, b, alo, blo, i2, j2) == t.2 ==> lex_le(t.0 + t.2 - 1, t.1 + t.2 - 1, i2, j2)) by {
            if !covered(alo, ahi, blo, bhi, i, jl, i2, j2) {
                assert(i2 == i && jl <= j2 < jl2);
            }
        }
    }
}

/// Covering one more cell keeps the best, or makes that cell's block the best.
proof fn lemma_best_step(a: Seq<char>, b: Seq<char>, alo: int, ahi: int, blo: int, bhi: int, i: int, j: int, t: (int, int, int), length: int)
    requires
        best_among(a, b, alo, ahi, blo, bhi, i, j, t.0, t.1, t.2),
        alo <= i < ahi,
        blo <= j < bhi,
        run(a, b, alo, blo, i, j) == length,
    ensures
        length > t.2 ==> best_among(a, b, alo, ahi, blo, bhi, i, j + 1, i + 1 - length, j + 1 - length, length),
        length <= t.2 ==> best_among(a, b, alo, ahi, blo, bhi, i, j + 1, t.0, t.1, t.2),
{
    if length > t.2 {
        assert forall|i2: int, j2: int| covered(alo, ahi, blo, bhi, i, j + 1, i2, j2) implies #[trigger] run(a, b, alo, blo, i2, j2) <= length
            && (run(a, b, alo, blo, i2, j2) == length ==> lex_le(i, j, i2, j2)) by {
            if covered(alo, ahi, blo, bhi, i, j, i2, j2) {
                if t.2 == 0 {
                    assert(run(a, b, alo, blo, i2, j2) == 0);
                } else {
                    assert(run(a, b, alo, blo, i2, j2) <= t.2);
                }
            } else {
                assert(i2 == i && j2 == j);
            }
        }
    } else {
        if t.2 == 0 {
            assert forall|i2: int, j2: int| covered(alo, ahi, blo, bhi, i, j + 1, i2, j2) implies #[trigger] run(a, b, alo, blo, i2, j2) == 0 by {
                if !covered(alo, ahi, blo, bhi, i, j, i2, j2) {
                    assert(i2 == i && j2 == j);
                }
            }
        } else {
            assert forall|i2: int, j2: int| covered(alo, ahi, blo, bhi, i, j + 1, i2, j2) implies #[trigger] run(a, b, alo, blo, i2, j2) <= t.2
                && (run(a, b, alo, blo, i2, j2) == t.2 ==> lex_le(t.0 + t.2 - 1, t.1 + t.2 - 1, i2, j2)) by {
                if !covered(alo, ahi, blo, bhi, i, j, i2, j2) {
                    assert(i2 == i && j2 == j);
                    assert(lex_le(t.0 + t.2 - 1, t.1 + t.2 - 1, i, j));
                }
            }
        }
    }
}

/// A row covered up to its end is the same as the next row covered up to its start.
proof fn lemma_best_row(a: Seq<char>, b: Seq<char>, alo: int, ahi: int, blo: int, bhi: int, i: int, t: (int, int, int))
    requires
        0 <= blo,
        best_among(a, b, alo, ahi, blo, bhi, i, bhi, t.0, t.1, t.2),
    ensures
        best_among(a, b, alo, ahi, blo, bhi, i + 1, 0, t.0, t.1, t.2),
{
    if t.2 == 0 {
        assert forall|i2: int, j2: int| covered(alo, ahi, blo, bhi, i + 1, 0, i2, j2) implies #[trigger] run(a, b, alo, blo, i2, j2) == 0 by {
            assert(covered(alo, ahi, blo, bhi, i, bhi, i2, j2));
        }
    } else {
        assert(covered(alo, ahi, blo, bhi, i, bhi, t.0 + t.2 - 1, t.1 + t.2 - 1));
        assert forall|i2: int, j2: int| covered(alo, ahi, blo, bhi, i + 1, 0, i2, j2) implies #[trigger] run(a, b, alo, blo, i2, j2) <= t.2
            && (run(a, b, alo, blo, i2, j2) == t.2 ==> lex_le(t.0 + t.2 - 1, t.1 + t.2 - 1, i2, j2)) by {
            assert(covered(alo, ahi, blo, bhi, i, bhi, i2, j2));
        }
    }
}

/// The run value a row holds for position `j` once it is filled up to `lim`.
pub open spec fn row_value(a: Seq<char>, b: Seq<char>, alo: int, blo: int, bhi: int, i: int, lim: int, j: int) -> int {
    if blo <= j < lim && j < bhi {
        run(a, b, alo, blo, i, j) as int
    } else {
        0
    }
}

impl Target {
    /// Fill row `i` of the search: `current[j]` becomes the length of the run of
    /// equal indexed pairs ending at `(i, j)`, for each `j` of the window, and the
    /// best block so far takes this row's cells into account.
    fn fill_row(
        &self,
        Ghost(av): Ghost<Seq<char>>,
        range: (usize, usize),
        i: usize,
        a_low: usize,
        a_high: usize,
        b_low: usize,
        b_high: usize,
        previous: &Vec<usize>,
        current: &mut Vec<usize>,
        current_written: &mut Vec<usize>,
        best: (usize, usize, usize),
    ) -> (r: (usize, usize, usize))
        requires
            self.wf(),
            a_low <= i < a_high <= av.len(),
            b_low <= b_high <= self@.len(),
            indexed(self@, av[i as int]) ==> positions_of(self@, self.positions@, av[i as int], range.0 as int, range.1 as int),
            !indexed(self@, av[i as int]) ==> range.0 == range.1,
            previous@.len() >= self@.len(),
            old(current)@.len() == previous@.len(),
            forall|j: int| 0 <= j < previous@.len() ==> #[trigger] previous@[j] as int == row_value(av, self@, a_low as int, b_low as int, b_high as int, i - 1, b_high as int, j),
            forall|j: int| 0 <= j < old(current)@.len() ==> #[trigger] old(current)@[j] == 0,
            old(current_written)@.len() == 0,
            best_among(av, self@, a_low as int, a_high as int, b_low as int, b_high as int, i as int, 0, best.0 as int, best.1 as int, best.2 as int),
        ensures
            final(current)@.len() == previous@.len(),
            forall|j: int| 0 <= j < previous@.len() ==> #[trigger] final(current)@[j] as int == row_value(av, self@, a_low as int, b_low as int, b_high as int, i as int, b_high as int, j),
            written_covers(final(current)@, final(current_written)@),
            best_among(av, self@, a_low as int, a_high as int, b_low as int, b_high as int, i + 1, 0, r.0 as int, r.1 as int, r.2 as int),
    {
        let ghost bv = self@;
        let ghost alo = a_low as int;
        let ghost ahi = a_high as int;
        let ghost blo = b_low as int;
        let ghost bhi = b_high as int;
        let ghost element = av[i as int];
        let (start, end) = range;
        let mut best = best;
        let ghost mut lim: int = blo;
        let mut t: usize = start;
        while t < end && self.positions[t] < b_high
            invariant
                self.wf(),
                bv == self@,
                alo == a_low as int,
                ahi == a_high as int,
                blo == b_low as int,
                bhi == b_high as int,
                a_low <= i < a_high <= av.len(),
                b_low <= b_high <= bv.len(),
                element == av[i as int],
                indexed(bv, element) ==> positions_of(bv, self.positions@, element, start as int, end as int),
                !indexed(bv, element) ==> start == end,
                start <= t <= end,
                blo <= lim <= bhi,
                lim == blo || (start < t && lim == self.positions@[t - 1] + 1),
                forall|u: int| start <= u < t ==> #[trigger] self.positions@[u] < lim,
                previous@.len() >= bv.len(),
                current@.len() == previous@.len(),
                forall|j: int| 0 <= j < previous@.len() ==> #[trigger] previous@[j] as int == row_value(av, bv, alo, blo, bhi, i - 1, bhi, j),
                forall|j: int| 0 <= j < current@.len() ==> #[trigger] current@[j] as int == row_value(av, bv, alo, blo, bhi, i as int, lim, j),
                written_covers(current@, current_written@),
                best_among(av, bv, alo, ahi, blo, bhi, i as int, lim, best.0 as int, best.1 as int, best.2 as int),
            decreases end - t,
        {
            let j = self.positions[t];
            assert(bv[j as int] == element);
            if j >= b_low {
                proof {
                    if t > start {
                        assert(self.positions@[t - 1] < self.positions@[t as int]);
                    }
                    assert forall|j2: int| lim <= j2 < j && blo <= j2 < bhi implies #[trigger] run(av, bv, alo, blo, i as int, j2) == 0 by {
                        lemma_gap(bv, self.positions@, element, start as int, end as int, t as int, lim, j2);
                    }
                    lemma_best_skip(av, bv, alo, ahi, blo, bhi, i as int, lim, j as int, (best.0 as int, best.1 as int, best.2 as int));
                    lemma_run_bounds(av, bv, alo, blo, i - 1, j - 1);
                    assert(run(av, bv, alo, blo, i as int, j as int) == 1 + run(av, bv, alo, blo, i - 1, j - 1));
                }
                let length: usize = if j > 0 { previous[j - 1] + 1 } else { 1 };
                assert(length == run(av, bv, alo, blo, i as int, j as int));
                proof {
                    lemma_covers_set(current@, current_written@, j as int, length);
                    lemma_best_step(av, bv, alo, ahi, blo, bhi, i as int, j as int, (best.0 as int, best.1 as int, best.2 as int), length as int);
                    lemma_run_bounds(av, bv, alo, blo, i as int, j as int);
                }
                let ghost old_lim = lim;
                let ghost old_current = current@;
                current.set(j, length);
                current_written.push(j);
                if length > best.2 {
                    best = (i + 1 - length, j + 1 - length, length);
                }
                proof {
                    lim = j + 1;
                    assert forall|j2: int| 0 <= j2 < current@.len() implies #[trigger] current@[j2] as int == row_value(av, bv, alo, blo, bhi, i as int, lim, j2) by {
                        if j2 == j {
                            assert(current@[j2] == length);
                        } else {
                            assert(current@[j2] == old_current[j2]);
                            assert(old_current[j2] as int == row_value(av, bv, alo, blo, bhi, i as int, old_lim, j2));
                            if old_lim <= j2 < j && blo <= j2 < bhi {
                                assert(run(av, bv, alo, blo, i as int, j2) == 0);
                            }
                        }
                    }
                }
            }
            t += 1;
        }
        proof {
            assert forall|j2: int| lim <= j2 < bhi && blo <= j2 < bhi implies #[trigger] run(av, bv, alo, blo, i as int, j2) == 0 by {
                if indexed(bv, element) {
                    lemma_gap(bv, self.positions@, element, start as int, end as int, t as int, lim, j2);
                }
            }
            lemma_best_skip(av, bv, alo, ahi, blo, bhi, i as int, lim, bhi, (best.0 as int, best.1 as int, best.2 as int));
            lemma_best_row(av, bv, alo, ahi, blo, bhi, i as int, (best.0 as int, best.1 as int, best.2 as int));
            assert forall|j2: int| 0 <= j2 < current@.len() implies #[trigger] current@[j2] as int == row_value(av, bv, alo, blo, bhi, i as int, bhi, j2) by {
                if lim <= j2 < bhi && blo <= j2 {
                    assert(run(av, bv, alo, blo, i as int, j2) == 0);
                }
            }
        }
        best
    }

    /// The longest common block within the given windows, as `(a_start, b_start, len)`.
    ///
    /// Ties go to the earliest block in `a`, and then to the earliest in `b`.
    fn longest_match(
        &self,
        a: &[char],
        scratch: &mut Scratch,
        a_low: usize,
        a_high: usize,
        b_low: usize,
        b_high: usize,
    ) -> (r: (usize, usize, usize))
        requires
            self.wf(),
            old(scratch).ready_for(a@, self),
            a_low <= a_high <= a@.len(),
            b_low <= b_high <= self@.len(),
        ensures
            final(scratch).ready_for(a@, self),
            final(scratch).queue@ == old(scratch).queue@,
            (r.0 as int, r.1 as int, r.2 as int) == longest(a@, self@, a_low as int, a_high as int, b_low as int, b_high as int),
            a_low <= r.0,
            r.0 + r.2 <= a_high,
            b_low <= r.1,
            r.1 + r.2 <= b_high,
    {
        let ghost av = a@;
        let ghost bv = self.b@;
        let ghost alo = a_low as int;
        let ghost blo = b_low as int;
        let ghost bhi = b_high as int;
        let ghost ahi = a_high as int;
        let ghost width = scratch.previous@.len();
        let mut best: (usize, usize, usize) = (a_low, b_low, 0);
        let mut i: usize = a_low;
        while i < a_high
            invariant
                self.wf(),
                av == a@,
                bv == self.b@,
                alo == a_low as int,
                ahi == a_high as int,
                blo == b_low as int,
                bhi == b_high as int,
                a_low <= i <= a_high <= a@.len(),
                b_low <= b_high <= bv.len(),
                ranges_for(av, bv, self.positions@, scratch.a_ranges@),
                scratch.previous@.len() == width,
                scratch.current@.len() == width,
                width >= bv.len(),
                forall|j: int| 0 <= j < width ==> #[trigger] scratch.previous@[j] as int == row_value(av, bv, alo, blo, bhi, i - 1, bhi, j),
                written_covers(scratch.previous@, scratch.previous_written@),
                written_covers(scratch.current@, scratch.current_written@),
                best_among(av, bv, alo, ahi, blo, bhi, i as int, 0, best.0 as int, best.1 as int, best.2 as int),
                scratch.queue@ == old(scratch).queue@,
            decreases a_high - i,
        {
            // `current` still holds the run lengths from two rows back; only the
            // positions it wrote need clearing.
            clear_row(&mut scratch.current, &mut scratch.current_written);
            let range = scratch.a_ranges[i];
            best = self.fill_row(
                Ghost(av),
                range,
                i,
                a_low,
                a_high,
                b_low,
                b_high,
                &scratch.previous,
                &mut scratch.current,
                &mut scratch.current_written,
                best,
            );
            std::mem::swap(&mut scratch.previous, &mut scratch.current);
            std::mem::swap(&mut scratch.previous_written, &mut scratch.current_written);
            i += 1;
        }
        // Leave both rows clean for the next search.
        clear_row(&mut scratch.previous, &mut scratch.previous_written);
        clear_row(&mut scratch.current, &mut scratch.current_written);

        let (mut best_i, mut best_j, mut best_size) = best;
        proof {
            lemma_core_is(av, bv, alo, ahi, blo, bhi, (best_i as int, best_j as int, best_size as int));
            if best_size > 0 {
                lemma_run_bounds(av, bv, alo, blo, best_i + best_size - 1, best_j + best_size - 1);
            }
        }
        // Grow the block over elements that were dropped from the index above.
        while best_i > a_low && best_j > b_low && a[best_i - 1] == self.b[best_j - 1]
            invariant
                av == a@,
                bv == self.b@,
                alo == a_low as int,
                ahi == a_high as int,
                blo == b_low as int,
                bhi == b_high as int,
                a_low <= best_i,
                b_low <= best_j,
                best_i + best_size <= a_high <= av.len(),
                best_j + best_size <= b_high <= bv.len(),
                extend_back(av, bv, alo, blo, core_block(av, bv, alo, ahi, blo, bhi)) == extend_back(av, bv, alo, blo, (best_i as int, best_j as int, best_size as int)),
            decreases best_i,
        {
            best_i -= 1;
            best_j -= 1;
            best_size += 1;
        }
        while best_i + best_size < a_high && best_j + best_size < b_high && a[best_i + best_size] == self.b[best_j + best_size]
            invariant
                av == a@,
                bv == self.b@,
                alo == a_low as int,
                ahi == a_high as int,
                blo == b_low as int,
                bhi == b_high as int,
                a_low <= best_i,
                b_low <= best_j,
                best_i + best_size <= a_high <= av.len(),
                best_j + best_size <= b_high <= bv.len(),
                longest(av, bv, alo, ahi, blo, bhi) == extend_forward(av, bv, ahi, bhi, (best_i as int, best_j as int, best_size as int)),
            decreases a_high - best_size,
        {
            best_size += 1;
        }
        (best_i, best_j, best_size)
    }
}

// ------------------------------------------------------------ the score

/// The matched characters still owed by the windows waiting in `queue`.
pub open spec fn queue_sum(a: Seq<char>, b: Seq<char>, queue: Seq<(usize, usize, usize, usize)>) -> nat
    decreases queue.len(),
{
    if queue.len() == 0 {
        0
    } else {
        let w = queue.last();
        queue_sum(a, b, queue.drop_last()) + matched_in(a, b, w.0 as int, w.1 as int, w.2 as int, w.3 as int)
    }
}

/// Work left in `queue`: each window counts for twice its size, plus one.
pub open spec fn queue_measure(queue: Seq<(usize, usize, usize, usize)>) -> nat
    decreases queue.len(),
{
    if queue.len() == 0 {
        0
    } else {
        let w = queue.last();
        queue_measure(queue.drop_last()) + (2 * ((w.1 - w.0) + (w.3 - w.2)) + 1) as nat
    }
}

/// Every window of `queue` lies inside `a` and `b`.
pub open spec fn windows_valid(queue: Seq<(usize, usize, usize, usize)>, alen: int, blen: int) -> bool {
    forall|k: int| 0 <= k < queue.len() ==> {
        &&& (#[trigger] queue[k]).0 <= queue[k].1 <= alen
        &&& queue[k].2 <= queue[k].3 <= blen
    }
}

/// A window never matches more characters than either of its sides holds.
proof fn lemma_matched_in_bounds(a: Seq<char>, b: Seq<char>, alo: int, ahi: int, blo: int, bhi: int)
    requires
        alo <= ahi,
        blo <= bhi,
    ensures
        matched_in(a, b, alo, ahi, blo, bhi) <= ahi - alo,
        matched_in(a, b, alo, ahi, blo, bhi) <= bhi - blo,
    decreases (ahi - alo) + (bhi - blo),
{
    let (i, j, k) = longest(a, b, alo, ahi, blo, bhi);
    if k > 0 && alo <= i && i + k <= ahi && blo <= j && j + k <= bhi {
        if alo < i && blo < j {
            lemma_matched_in_bounds(a, b, alo, i, blo, j);
        }
        if i + k < ahi && j + k < bhi {
            lemma_matched_in_bounds(a, b, i + k, ahi, j + k, bhi);
        }
    }
}

proof fn lemma_queue_push(a: Seq<char>, b: Seq<char>, q: Seq<(usize, usize, usize, usize)>, w: (usize, usize, usize, usize), alen: int, blen: int)
    ensures
        queue_sum(a, b, q.push(w)) == queue_sum(a, b, q) + matched_in(a, b, w.0 as int, w.1 as int, w.2 as int, w.3 as int),
        queue_measure(q.push(w)) == queue_measure(q) + (2 * ((w.1 - w.0) + (w.3 - w.2)) + 1) as nat,
        windows_valid(q, alen, blen) && w.0 <= w.1 <= alen && w.2 <= w.3 <= blen ==> windows_valid(q.push(w), alen, blen),
{
    assert(q.push(w).drop_last() =~= q);
    assert(q.push(w).last() == w);
    if windows_valid(q, alen, blen) && w.0 <= w.1 <= alen && w.2 <= w.3 <= blen {
        assert forall|k: int| 0 <= k < q.push(w).len() implies {
            &&& (#[trigger] q.push(w)[k]).0 <= q.push(w)[k].1 <= alen
            &&& q.push(w)[k].2 <= q.push(w)[k].3 <= blen
        } by {
            if k < q.len() {
                assert(q.push(w)[k] == q[k]);
            }
        }
    }
}

proof fn lemma_queue_pop(q: Seq<(usize, usize, usize, usize)>, alen: int, blen: int)
    requires
        q.len() > 0,
        windows_valid(q, alen, blen),
    ensures
        q == q.drop_last().push(q.last()),
        windows_valid(q.drop_last(), alen, blen),
        q.last().0 <= q.last().1 <= alen,
        q.last().2 <= q.last().3 <= blen,
{
    assert(q =~= q.drop_last().push(q.last()));
    assert(q.last() == q[q.len() - 1]);
    assert forall|k: int| 0 <= k < q.drop_last().len() implies {
        &&& (#[trigger] q.drop_last()[k]).0 <= q.drop_last()[k].1 <= alen
        &&& q.drop_last()[k].2 <= q.drop_last()[k].3 <= blen
    } by {
        assert(q.drop_last()[k] == q[k]);
    }
}

impl Target {
    /// Sum of the lengths of every matching block, which is all the score needs.
    fn total_matched(&self, a: &[char], scratch: &mut Scratch) -> (r: usize)
        requires
            self.wf(),
            old(scratch).is_clean(),
        ensures
            final(scratch).is_clean(),
            r == matched(a@, self@),
    {
        scratch.prepare(a, self);
        let ghost av = a@;
        let ghost bv = self@;
        let ghost alen = av.len() as int;
        let ghost blen = bv.len() as int;
        let mut total: usize = 0;
        let a_len = a.len();
        assert(alen == a_len);
        scratch.queue.clear();
        proof {
            lemma_queue_push(av, bv, scratch.queue@, (0usize, a.len(), 0usize, self.b.len()), alen, blen);
            lemma_matched_in_bounds(av, bv, 0, alen, 0, blen);
        }
        scratch.queue.push((0, a.len(), 0, self.b.len()));
        while scratch.queue.len() > 0
            invariant
                self.wf(),
                av == a@,
                bv == self@,
                alen == av.len(),
                blen == bv.len(),
                alen <= usize::MAX,
                scratch.ready_for(av, self),
                windows_valid(scratch.queue@, alen, blen),
                total + queue_sum(av, bv, scratch.queue@) == matched(av, bv),
                matched(av, bv) <= av.len(),
            decreases queue_measure(scratch.queue@),
        {
            let ghost before = scratch.queue@;
            proof {
                lemma_queue_pop(before, alen, blen);
                lemma_queue_push(av, bv, before.drop_last(), before.last(), alen, blen);
            }
            let window = scratch.queue.pop().unwrap();
            let (a_low, a_high, b_low, b_high) = window;
            assert(window == before.last());
            assert(scratch.queue@ == before.drop_last());
            let (i, j, size) = self.longest_match(a, scratch, a_low, a_high, b_low, b_high);
            let ghost whole = matched_in(av, bv, a_low as int, a_high as int, b_low as int, b_high as int);
            if size > 0 {
                let ghost rest = scratch.queue@;
                let ghost left_part = if a_low < i && b_low < j {
                    matched_in(av, bv, a_low as int, i as int, b_low as int, j as int)
                } else {
                    0
                };
                let ghost right_part = if i + size < a_high && j + size < b_high {
                    matched_in(av, bv, i + size, a_high as int, j + size, b_high as int)
                } else {
                    0
                };
                assert(whole == size + left_part + right_part);
                assert(queue_sum(av, bv, before) == queue_sum(av, bv, rest) + whole);
                total += size;
                let left = (a_low, i, b_low, j);
                let right = (i + size, a_high, j + size, b_high);
                if a_low < i && b_low < j {
                    proof {
                        lemma_queue_push(av, bv, scratch.queue@, left, alen, blen);
                    }
                    scratch.queue.push(left);
                }
                if i + size < a_high && j + size < b_high {
                    proof {
                        lemma_queue_push(av, bv, scratch.queue@, right, alen, blen);
                    }
                    scratch.queue.push(right);
                }
            } else {
                assert(whole == 0);
                assert(queue_sum(av, bv, before) == queue_sum(av, bv, scratch.queue@) + whole);
            }
        }
        total
    }

    /// Similarity of `a` against this target: twice the matched characters over
    /// the combined length, zero when either side is empty.
    pub fn ratio(&self, a: &[char], scratch: &mut Scratch) -> (r: Score)
        requires
            self.wf(),
            old(scratch).is_clean(),
            a@.len() + self@.len() <= usize::MAX,
        ensures
            final(scratch).is_clean(),
            r == score_of(a@, self@),
    {
        if a.len() == 0 || self.b.len() == 0 {
            return Score::zero();
        }
        let matched_count = self.total_matched(a, scratch);
        proof {
            lemma_matched_in_bounds(a@, self@, 0, a@.len() as int, 0, self@.len() as int);
        }
        Score { numerator: 2 * matched_count, denominator: a.len() + self.b.len() }
    }
}

impl Default for Scratch {
    fn default() -> (r: Scratch)
        ensures
            r.is_clean(),
    {
        Scratch::new()
    }
}

/// Similarity of two strings, compared character by character: twice the
/// matched characters over the combined length.
///
/// Zero when either side is empty: an empty stem carries no evidence, so it is
/// never a perfect match for another empty stem.
pub fn ratio(a: &str, b: &str) -> (r: Score)
    requires
        a@.len() + b@.len() <= usize::MAX,
    ensures
        r == score_of(a@, b@),
{
    let a = chars_of(a);
    let b = chars_of(b);
    if a.len() == 0 || b.len() == 0 {
        return Score::zero();
    }
    let target = Target::new(&b);
    let mut scratch = Scratch::new();
    target.ratio(&a, &mut scratch)
}

// ------------------------------------------------------------- the bound law

/// `(i, j, k)` lies inside the window and names `k` equal pairs.
pub open spec fn block_in(a: Seq<char>, b: Seq<char>, alo: int, ahi: int, blo: int, bhi: int, t: (int, int, int)) -> bool {
    &&& alo <= t.0
    &&& t.0 + t.2 <= ahi
    &&& blo <= t.1
    &&& t.1 + t.2 <= bhi
    &&& 0 <= t.2
    &&& forall|d: int| 0 <= d < t.2 ==> #[trigger] a[t.0 + d] == b[t.1 + d]
}

proof fn lemma_core_block_in(a: Seq<char>, b: Seq<char>, alo: int, ahi: int, blo: int, bhi: int)
    requires
        0 <= alo <= ahi <= a.len(),
        0 <= blo <= bhi <= b.len(),
    ensures
        block_in(a, b, alo, ahi, blo, bhi, core_block(a, b, alo, ahi, blo, bhi)),
{
    let t = core_block(a, b, alo, ahi, blo, bhi);
    lemma_core_exists(a, b, alo, ahi, blo, bhi);
    if t.2 > 0 {
        let ei = t.0 + t.2 - 1;
        let ej = t.1 + t.2 - 1;
        lemma_run_bounds(a, b, alo, blo, ei, ej);
        assert forall|d: int| 0 <= d < t.2 implies #[trigger] a[t.0 + d] == b[t.1 + d] by {
            lemma_run_equal(a, b, alo, blo, ei, ej, t.2 - 1 - d);
        }
    }
}

proof fn lemma_extend_back_in(a: Seq<char>, b: Seq<char>, alo: int, ahi: int, blo: int, bhi: int, t: (int, int, int))
    requires
        0 <= alo,
        0 <= blo,
        ahi <= a.len(),
        bhi <= b.len(),
        block_in(a, b, alo, ahi, blo, bhi, t),
    ensures
        block_in(a, b, alo, ahi, blo, bhi, extend_back(a, b, alo, blo, t)),
    decreases t.0 - alo,
{
    if alo < t.0 && blo < t.1 && t.0 <= a.len() && t.1 <= b.len() && a[t.0 - 1] == b[t.1 - 1] {
        let t2 = (t.0 - 1, t.1 - 1, t.2 + 1);
        assert forall|d: int| 0 <= d < t2.2 implies #[trigger] a[t2.0 + d] == b[t2.1 + d] by {
            if d > 0 {
                assert(a[t.0 + (d - 1)] == b[t.1 + (d - 1)]);
            }
        }
        lemma_extend_back_in(a, b, alo, ahi, blo, bhi, t2);
    }
}

proof fn lemma_extend_forward_in(a: Seq<char>, b: Seq<char>, alo: int, ahi: int, blo: int, bhi: int, t: (int, int, int))
    requires
        block_in(a, b, alo, ahi, blo, bhi, t),
    ensures
        block_in(a, b, alo, ahi, blo, bhi, extend_forward(a, b, ahi, bhi, t)),
    decreases ahi - (t.0 + t.2),
{
    if 0 <= t.0 + t.2 < ahi && 0 <= t.1 + t.2 < bhi && ahi <= a.len() && bhi <= b.len() && a[t.0 + t.2] == b[t.1 + t.2] {
        let t2 = (t.0, t.1, t.2 + 1);
        assert forall|d: int| 0 <= d < t2.2 implies #[trigger] a[t2.0 + d] == b[t2.1 + d] by {
            if d < t.2 {
                assert(a[t.0 + d] == b[t.1 + d]);
            }
        }
        lemma_extend_forward_in(a, b, alo, ahi, blo, bhi, t2);
    }
}

/// Some block is the best among the cells before `(i, j)`.
proof fn lemma_best_upto(a: Seq<char>, b: Seq<char>, alo: int, ahi: int, blo: int, bhi: int, i: int, j: int) -> (t: (int, int, int))
    requires
        0 <= alo <= i <= ahi,
        0 <= blo <= j <= bhi,
        i == ahi ==> j == blo,
    ensures
        best_among(a, b, alo, ahi, blo, bhi, i, j, t.0, t.1, t.2),
    decreases i - alo, j,
{
    if j > blo {
        let t0 = lemma_best_upto(a, b, alo, ahi, blo, bhi, i, j - 1);
        let length = run(a, b, alo, blo, i, j - 1) as int;
        lemma_best_step(a, b, alo, ahi, blo, bhi, i, j - 1, t0, length);
        if length > t0.2 {
            (i + 1 - length, j - length, length)
        } else {
            t0
        }
    } else if i > alo {
        let t0 = lemma_best_upto(a, b, alo, ahi, blo, bhi, i - 1, bhi);
        lemma_best_row(a, b, alo, ahi, blo, bhi, i - 1, t0);
        lemma_best_skip(a, b, alo, ahi, blo, bhi, i, 0, blo, t0);
        t0
    } else {
        assert forall|i2: int, j2: int| covered(alo, ahi, blo, bhi, i, j, i2, j2) implies #[trigger] run(a, b, alo, blo, i2, j2) == 0 by {
        }
        (alo, blo, 0)
    }
}

/// The longest indexed block of a window exists.
proof fn lemma_core_exists(a: Seq<char>, b: Seq<char>, alo: int, ahi: int, blo: int, bhi: int)
    requires
        0 <= alo <= ahi,
        0 <= blo <= bhi,
    ensures
        core_ok(a, b, alo, ahi, blo, bhi, core_block(a, b, alo, ahi, blo, bhi)),
{
    let t = lemma_best_upto(a, b, alo, ahi, blo, bhi, ahi, blo);
    assert forall|i2: int, j2: int| covered(alo, ahi, blo, bhi, ahi, 0, i2, j2) == covered(alo, ahi, blo, bhi, ahi, blo, i2, j2) by {
    }
    assert(core_ok(a, b, alo, ahi, blo, bhi, t));
}

/// The block `longest` picks is a run of equal pairs inside the window.
proof fn lemma_longest_in(a: Seq<char>, b: Seq<char>, alo: int, ahi: int, blo: int, bhi: int)
    requires
        0 <= alo <= ahi <= a.len(),
        0 <= blo <= bhi <= b.len(),
    ensures
        block_in(a, b, alo, ahi, blo, bhi, longest(a, b, alo, ahi, blo, bhi)),
{
    lemma_core_block_in(a, b, alo, ahi, blo, bhi);
    lemma_extend_back_in(a, b, alo, ahi, blo, bhi, core_block(a, b, alo, ahi, blo, bhi));
    lemma_extend_forward_in(a, b, alo, ahi, blo, bhi, extend_back(a, b, alo, blo, core_block(a, b, alo, ahi, blo, bhi)));
}

/// A window matches at most the characters its two sides share.
proof fn lemma_matched_in_within_shared(a: Seq<char>, b: Seq<char>, alo: int, ahi: int, blo: int, bhi: int)
    requires
        0 <= alo <= ahi <= a.len(),
        0 <= blo <= bhi <= b.len(),
    ensures
        matched_in(a, b, alo, ahi, blo, bhi) <= shared(a.subrange(alo, ahi), b.subrange(blo, bhi)),
    decreases (ahi - alo) + (bhi - blo),
{
    let (i, j, k) = longest(a, b, alo, ahi, blo, bhi);
    if k > 0 && alo <= i && i + k <= ahi && blo <= j && j + k <= bhi {
        lemma_longest_in(a, b, alo, ahi, blo, bhi);
        let a1 = a.subrange(alo, i);
        let a2 = a.subrange(i, i + k);
        let a3 = a.subrange(i + k, ahi);
        let b1 = b.subrange(blo, j);
        let b2 = b.subrange(j, j + k);
        let b3 = b.subrange(j + k, bhi);
        assert(a2 =~= b2) by {
            assert forall|d: int| 0 <= d < k implies a2[d] == b2[d] by {
                assert(a[i + d] == b[j + d]);
            }
        }
        assert(a.subrange(alo, ahi) =~= a1 + a2 + a3);
        assert(b.subrange(blo, bhi) =~= b1 + b2 + b3);
        lemma_shared_split(a1, a2, a3, b1, b2, b3);
        lemma_shared_self(a2);
        if alo < i && blo < j {
            lemma_matched_in_within_shared(a, b, alo, i, blo, j);
        }
        if i + k < ahi && j + k < bhi {
            lemma_matched_in_within_shared(a, b, i + k, ahi, j + k, bhi);
        }
    }
}

/// On one sequence against itself, the run ending on the diagonal is at least
/// as long as any run ending in the same row or the same column.
proof fn lemma_diagonal_runs(s: Seq<char>, i: int, j: int)
    ensures
        run(s, s, 0, 0, i, i) >= run(s, s, 0, 0, i, j),
        run(s, s, 0, 0, j, j) >= run(s, s, 0, 0, i, j),
    decreases i + 1,
{
    if run(s, s, 0, 0, i, j) > 0 {
        lemma_diagonal_runs(s, i - 1, j - 1);
    }
}

/// Growing a diagonal block of `s` against itself backwards reaches the start.
proof fn lemma_extend_back_diagonal(s: Seq<char>, x: int, k: int)
    requires
        0 <= x <= s.len(),
    ensures
        extend_back(s, s, 0, 0, (x, x, k)) == (0int, 0int, k + x),
    decreases x,
{
    if x > 0 {
        lemma_extend_back_diagonal(s, x - 1, k + 1);
    }
}

/// Growing a block of `s` against itself that starts at zero forwards reaches the end.
proof fn lemma_extend_forward_diagonal(s: Seq<char>, m: int)
    requires
        0 <= m <= s.len(),
    ensures
        extend_forward(s, s, s.len() as int, s.len() as int, (0int, 0int, m)) == (0int, 0int, s.len() as int),
    decreases s.len() - m,
{
    if m < s.len() {
        lemma_extend_forward_diagonal(s, m + 1);
    }
}

/// A non-empty string compared with itself scores one: every character matches.
pub proof fn lemma_identical_scores_one(s: Seq<char>)
    requires
        s.len() > 0,
        s.len() + s.len() <= usize::MAX,
    ensures
        matched(s, s) == s.len(),
        score_of(s, s).numerator == score_of(s, s).denominator,
        score_of(s, s).wf(),
{
    let n = s.len() as int;
    lemma_core_exists(s, s, 0, n, 0, n);
    let t = core_block(s, s, 0, n, 0, n);
    assert(core_ok(s, s, 0, n, 0, n, t));
    if t.2 > 0 {
        let p = t.0 + t.2 - 1;
        let q = t.1 + t.2 - 1;
        lemma_diagonal_runs(s, p, q);
        lemma_run_bounds(s, s, 0, 0, p, q);
        lemma_run_bounds(s, s, 0, 0, p, p);
        lemma_run_bounds(s, s, 0, 0, q, q);
        if q < p {
            assert(covered(0, n, 0, n, n, 0, q, q));
            assert(run(s, s, 0, 0, q, q) <= t.2);
        } else if p < q {
            assert(covered(0, n, 0, n, n, 0, p, p));
            assert(run(s, s, 0, 0, p, p) <= t.2);
        }
        assert(t.0 == t.1);
        assert(0 <= t.0);
        assert(t.0 + t.2 <= n);
        lemma_extend_back_diagonal(s, t.0, t.2);
        lemma_extend_forward_diagonal(s, t.0 + t.2);
    } else {
        lemma_extend_back_diagonal(s, 0, 0);
        lemma_extend_forward_diagonal(s, 0);
    }
    assert(longest(s, s, 0, n, 0, n) == (0int, 0int, n));
    assert(matched(s, s) == n);
}

/// The bound is never below the score and never above one: every matched
/// character pairs one character of `a` with a distinct equal character of
/// `b`, so no video whose bound loses can win on its score.
pub proof fn lemma_score_within_bound(a: Seq<char>, b: Seq<char>)
    requires
        a.len() + b.len() <= usize::MAX,
    ensures
        matched(a, b) <= shared(a, b),
        score_of(a, b).le(bound_of(a, b)),
        bound_of(a, b).wf(),
{
    lemma_matched_in_within_shared(a, b, 0, a.len() as int, 0, b.len() as int);
    assert(a.subrange(0, a.len() as int) =~= a);
    assert(b.subrange(0, b.len() as int) =~= b);
    lemma_shared_bounds(a, b);
    if a.len() > 0 && b.len() > 0 {
        let n = (a.len() + b.len()) as int;
        let m = matched(a, b) as int;
        let sh = shared(a, b) as int;
        assert(score_of(a, b).numerator == 2 * m);
        assert(bound_of(a, b).numerator == 2 * sh);
        assert(score_of(a, b).denominator == n);
        assert(bound_of(a, b).denominator == n);
        assert((2 * m) * n <= (2 * sh) * n) by (nonlinear_arith)
            requires
                m <= sh,
                n > 0,
        ;
    }
}

/// A score is a fraction between zero and one: nothing matches more than both
/// sides hold.
pub proof fn lemma_score_in_range(a: Seq<char>, b: Seq<char>)
    requires
        a.len() + b.len() <= usize::MAX,
    ensures
        score_of(a, b).wf(),
        matched(a, b) <= a.len(),
        matched(a, b) <= b.len(),
{
    lemma_matched_in_bounds(a, b, 0, a.len() as int, 0, b.len() as int);
}

} // verus!
