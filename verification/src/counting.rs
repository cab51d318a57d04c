//! Character counts, and sums of them over every possible character.
//!
//! The similarity bound is a multiset intersection: for each character, the
//! smaller of its two counts. Summing over the whole character range, rather
//! than over the characters one side happens to hold, makes the sum independent
//! of which side it is read from and lets it be split pointwise.

use vstd::prelude::*;

verus! {

/// One past the largest character code.
pub open spec fn char_limit() -> int {
    0x110000
}

/// How often the character with code `x` occurs in `s`.
pub open spec fn count(s: Seq<char>, x: int) -> nat
    decreases s.len(),
{
    if s.len() == 0 {
        0
    } else {
        count(s.drop_last(), x) + if s.last() as int == x {
            1nat
        } else {
            0nat
        }
    }
}

/// The characters of `s` in order of first occurrence, each once.
pub open spec fn distinct(s: Seq<char>) -> Seq<char>
    decreases s.len(),
{
    if s.len() == 0 {
        seq![]
    } else {
        let d = distinct(s.drop_last());
        if d.contains(s.last()) {
            d
        } else {
            d.push(s.last())
        }
    }
}

pub open spec fn no_duplicates(d: Seq<char>) -> bool {
    forall|i: int, j: int| 0 <= i < j < d.len() ==> d[i] != d[j]
}

pub open spec fn smaller(x: nat, y: nat) -> nat {
    if x <= y {
        x
    } else {
        y
    }
}

/// `f(0) + ... + f(n - 1)`.
pub open spec fn range_sum(f: spec_fn(int) -> nat, n: int) -> nat
    decreases n,
{
    if n <= 0 {
        0
    } else {
        range_sum(f, n - 1) + f(n - 1)
    }
}

/// The size of the multiset intersection of `a` and `b`.
pub open spec fn shared(a: Seq<char>, b: Seq<char>) -> nat {
    range_sum(|x: int| smaller(count(a, x), count(b, x)), char_limit())
}

/// `f(d[0]) + ... + f(d[last])`.
pub open spec fn list_sum(f: spec_fn(int) -> nat, d: Seq<char>) -> nat
    decreases d.len(),
{
    if d.len() == 0 {
        0
    } else {
        list_sum(f, d.drop_last()) + f(d.last() as int)
    }
}

/// Every character code lies below `char_limit`.
pub proof fn lemma_char_range(c: char)
    ensures
        0 <= c as int <= 0x10FFFF,
{
}

/// Some element of `s` has code `x`.
pub open spec fn has_code(s: Seq<char>, x: int) -> bool {
    exists|k: int| 0 <= k < s.len() && #[trigger] s[k] as int == x
}

pub proof fn lemma_count_bounds(s: Seq<char>, x: int)
    ensures
        count(s, x) <= s.len(),
        count(s, x) > 0 <==> has_code(s, x),
    decreases s.len(),
{
    if s.len() > 0 {
        lemma_count_bounds(s.drop_last(), x);
        if has_code(s.drop_last(), x) {
            let k = choose|k: int| 0 <= k < s.drop_last().len() && #[trigger] s.drop_last()[k] as int == x;
            assert(s[k] as int == x);
        }
        if has_code(s, x) && !has_code(s.drop_last(), x) {
            let k = choose|k: int| 0 <= k < s.len() && #[trigger] s[k] as int == x;
            if k < s.len() - 1 {
                assert(s.drop_last()[k] as int == x);
            }
        }
    }
}

pub proof fn lemma_count_concat(s: Seq<char>, t: Seq<char>, x: int)
    ensures
        count(s + t, x) == count(s, x) + count(t, x),
    decreases t.len(),
{
    if t.len() == 0 {
        assert(s + t =~= s);
    } else {
        assert((s + t).drop_last() =~= s + t.drop_last());
        lemma_count_concat(s, t.drop_last(), x);
    }
}

pub proof fn lemma_distinct(s: Seq<char>)
    ensures
        no_duplicates(distinct(s)),
        forall|c: char| distinct(s).contains(c) <==> s.contains(c),
    decreases s.len(),
{
    if s.len() > 0 {
        lemma_distinct(s.drop_last());
        assert forall|c: char| distinct(s).contains(c) <==> s.contains(c) by {
            if s.contains(c) && !s.drop_last().contains(c) {
                let k = choose|k: int| 0 <= k < s.len() && s[k] == c;
                if k < s.len() - 1 {
                    assert(s.drop_last()[k] == c);
                }
                assert(c == s.last());
                assert(distinct(s).last() == c || distinct(s.drop_last()).contains(c));
            }
            if s.drop_last().contains(c) {
                let k = choose|k: int| 0 <= k < s.drop_last().len() && s.drop_last()[k] == c;
                assert(s[k] == c);
            }
            if distinct(s).contains(c) && !distinct(s.drop_last()).contains(c) {
                let k = choose|k: int| 0 <= k < distinct(s).len() && distinct(s)[k] == c;
                assert(k == distinct(s).len() - 1);
                assert(s[s.len() - 1] == c);
            }
            if distinct(s.drop_last()).contains(c) {
                let k = choose|k: int|
                    0 <= k < distinct(s.drop_last()).len() && distinct(s.drop_last())[k] == c;
                assert(distinct(s)[k] == c);
            }
        }
    }
}

pub proof fn lemma_range_sum_ext(f: spec_fn(int) -> nat, g: spec_fn(int) -> nat, n: int)
    requires
        forall|x: int| 0 <= x < n ==> #[trigger] f(x) == g(x),
    ensures
        range_sum(f, n) == range_sum(g, n),
    decreases n,
{
    if n > 0 {
        lemma_range_sum_ext(f, g, n - 1);
    }
}

pub proof fn lemma_range_sum_le(f: spec_fn(int) -> nat, g: spec_fn(int) -> nat, n: int)
    requires
        forall|x: int| 0 <= x < n ==> #[trigger] f(x) <= g(x),
    ensures
        range_sum(f, n) <= range_sum(g, n),
    decreases n,
{
    if n > 0 {
        lemma_range_sum_le(f, g, n - 1);
    }
}

pub proof fn lemma_range_sum_add(
    f: spec_fn(int) -> nat,
    g: spec_fn(int) -> nat,
    h: spec_fn(int) -> nat,
    n: int,
)
    requires
        forall|x: int| 0 <= x < n ==> #[trigger] h(x) == f(x) + g(x),
    ensures
        range_sum(h, n) == range_sum(f, n) + range_sum(g, n),
    decreases n,
{
    if n > 0 {
        lemma_range_sum_add(f, g, h, n - 1);
    }
}

/// A sum that is zero everywhere but at `d`.
pub proof fn lemma_range_sum_point(f: spec_fn(int) -> nat, d: int, n: int)
    requires
        forall|x: int| 0 <= x < n && x != d ==> #[trigger] f(x) == 0,
    ensures
        range_sum(f, n) == if 0 <= d < n {
            f(d)
        } else {
            0
        },
    decreases n,
{
    if n > 0 {
        lemma_range_sum_point(f, d, n - 1);
    }
}

/// Summing over a list of distinct characters is summing over the whole range,
/// for a function that is zero off the list.
pub proof fn lemma_list_sum_is_range_sum(f: spec_fn(int) -> nat, d: Seq<char>)
    requires
        no_duplicates(d),
        forall|x: int| 0 <= x < char_limit() && !has_code(d, x) ==> #[trigger] f(x) == 0,
    ensures
        list_sum(f, d) == range_sum(f, char_limit()),
    decreases d.len(),
{
    if d.len() == 0 {
        lemma_range_sum_point(f, -1, char_limit());
    } else {
        let rest = d.drop_last();
        let last = d.last() as int;
        let g = |x: int| if x == last {
            0nat
        } else {
            f(x)
        };
        let p = |x: int| if x == last {
            f(x)
        } else {
            0nat
        };
        assert forall|x: int| 0 <= x < char_limit() && !has_code(rest, x) implies #[trigger] g(x)
            == 0 by {
            if x != last && has_code(d, x) {
                let k = choose|k: int| 0 <= k < d.len() && #[trigger] d[k] as int == x;
                assert(k < d.len() - 1);
                assert(rest[k] as int == x);
            }
        }
        assert forall|k: int| 0 <= k < rest.len() implies #[trigger] rest[k] as int != last by {
            assert(d[k] != d[d.len() - 1]);
        }
        lemma_list_sum_agree(f, g, rest, last);
        lemma_list_sum_is_range_sum(g, rest);
        lemma_range_sum_add(g, p, f, char_limit());
        lemma_range_sum_point(p, last, char_limit());
        lemma_char_range(d.last());
        assert(p(last) == f(last));
    }
}

/// Two functions that agree everywhere but at a character missing from `d`
/// have the same list sum over `d`.
proof fn lemma_list_sum_agree(f: spec_fn(int) -> nat, g: spec_fn(int) -> nat, d: Seq<char>, x: int)
    requires
        forall|y: int| y != x ==> #[trigger] f(y) == g(y),
        forall|k: int| 0 <= k < d.len() ==> #[trigger] d[k] as int != x,
    ensures
        list_sum(f, d) == list_sum(g, d),
    decreases d.len(),
{
    if d.len() > 0 {
        assert(d[d.len() - 1] as int != x);
        lemma_list_sum_agree(f, g, d.drop_last(), x);
    }
}

/// A prefix of a list sum is at most the whole.
pub proof fn lemma_list_sum_prefix(f: spec_fn(int) -> nat, d: Seq<char>, k: int)
    requires
        0 <= k <= d.len(),
    ensures
        list_sum(f, d.take(k)) <= list_sum(f, d),
    decreases d.len() - k,
{
    if k < d.len() {
        lemma_list_sum_prefix(f, d, k + 1);
        assert(d.take(k + 1).drop_last() =~= d.take(k));
    } else {
        assert(d.take(k) =~= d);
    }
}

/// Summed over every character, the counts of `s` add up to its length.
pub proof fn lemma_count_sum(s: Seq<char>)
    ensures
        range_sum(|x: int| count(s, x), char_limit()) == s.len(),
    decreases s.len(),
{
    if s.len() == 0 {
        lemma_range_sum_point(|x: int| count(s, x), -1, char_limit());
    } else {
        let rest = s.drop_last();
        let last = s.last() as int;
        lemma_count_sum(rest);
        let p = |x: int| if x == last {
            1nat
        } else {
            0nat
        };
        lemma_range_sum_add(|x: int| count(rest, x), p, |x: int| count(s, x), char_limit());
        lemma_range_sum_point(p, last, char_limit());
        lemma_char_range(s.last());
    }
}

/// The shared count is at most either length.
pub proof fn lemma_shared_bounds(a: Seq<char>, b: Seq<char>)
    ensures
        shared(a, b) <= a.len(),
        shared(a, b) <= b.len(),
{
    let f = |x: int| smaller(count(a, x), count(b, x));
    lemma_range_sum_le(f, |x: int| count(a, x), char_limit());
    lemma_range_sum_le(f, |x: int| count(b, x), char_limit());
    lemma_count_sum(a);
    lemma_count_sum(b);
}

/// A sequence shares all of itself with itself.
pub proof fn lemma_shared_self(m: Seq<char>)
    ensures
        shared(m, m) == m.len(),
{
    lemma_range_sum_ext(
        |x: int| smaller(count(m, x), count(m, x)),
        |x: int| count(m, x),
        char_limit(),
    );
    lemma_count_sum(m);
}

/// Splitting both sides into three aligned parts never shares more than the
/// whole does.
pub proof fn lemma_shared_split(
    a1: Seq<char>,
    a2: Seq<char>,
    a3: Seq<char>,
    b1: Seq<char>,
    b2: Seq<char>,
    b3: Seq<char>,
)
    ensures
        shared(a1, b1) + shared(a2, b2) + shared(a3, b3) <= shared(a1 + a2 + a3, b1 + b2 + b3),
{
    let a = a1 + a2 + a3;
    let b = b1 + b2 + b3;
    let f1 = |x: int| smaller(count(a1, x), count(b1, x));
    let f2 = |x: int| smaller(count(a2, x), count(b2, x));
    let f3 = |x: int| smaller(count(a3, x), count(b3, x));
    let f12 = |x: int| f1(x) + f2(x);
    let f123 = |x: int| f12(x) + f3(x);
    let g = |x: int| smaller(count(a, x), count(b, x));
    assert forall|x: int| 0 <= x < char_limit() implies #[trigger] f123(x) <= g(x) by {
        lemma_count_concat(a1, a2, x);
        lemma_count_concat(a1 + a2, a3, x);
        lemma_count_concat(b1, b2, x);
        lemma_count_concat(b1 + b2, b3, x);
    }
    lemma_range_sum_add(f1, f2, f12, char_limit());
    lemma_range_sum_add(f12, f3, f123, char_limit());
    lemma_range_sum_le(f123, g, char_limit());
}

} // verus!
