//! Ordering by text keys, so a plan reads the same however the folders were
//! listed.
//!
//! Strings order by their UTF-8 bytes, which is the order of their characters'
//! code points, compared position by position.

use vstd::prelude::*;

use crate::text::{chars_of, views};

verus! {

/// `a` sorts strictly before `b`, looking from position `i` on: at the first
/// position where they differ `a` holds the smaller character, or `a` runs out
/// first.
pub open spec fn lex_lt_from(a: Seq<char>, b: Seq<char>, i: int) -> bool
    decreases a.len() - i,
{
    if i >= b.len() {
        false
    } else if i >= a.len() {
        true
    } else if a[i] != b[i] {
        (a[i] as int) < (b[i] as int)
    } else {
        lex_lt_from(a, b, i + 1)
    }
}

/// `a` sorts strictly before `b`.
pub open spec fn lex_lt(a: Seq<char>, b: Seq<char>) -> bool {
    lex_lt_from(a, b, 0)
}

/// Whether `a` sorts strictly before `b`.
pub fn text_less(a: &str, b: &str) -> (r: bool)
    ensures
        r == lex_lt(a@, b@),
{
    let left = chars_of(a);
    let right = chars_of(b);
    let mut index: usize = 0;
    while index < left.len() && index < right.len() && left[index] == right[index]
        invariant
            index <= left.len(),
            index <= right.len(),
            left@ == a@,
            right@ == b@,
            lex_lt(a@, b@) == lex_lt_from(a@, b@, index as int),
        decreases left.len() - index,
    {
        index += 1;
    }
    if index >= right.len() {
        false
    } else if index >= left.len() {
        true
    } else {
        let x = left[index];
        let y = right[index];
        assert(x != y);
        assert(lex_lt_from(a@, b@, index as int) == ((x as int) < (y as int)));
        x < y
    }
}

/// The first position of `order` from `p` on whose key sorts strictly after
/// the key of `item`, or the end.
pub open spec fn insert_position(keys: Seq<Seq<char>>, order: Seq<usize>, item: int, p: int) -> int
    decreases order.len() - p,
{
    if p >= order.len() {
        order.len() as int
    } else if lex_lt(keys[item], keys[order[p] as int]) {
        p
    } else {
        insert_position(keys, order, item, p + 1)
    }
}

/// The first `n` indices of `keys`, in the order of their keys; indices with
/// equal keys keep their relative order.
pub open spec fn sorted_order(keys: Seq<Seq<char>>, n: int) -> Seq<usize>
    decreases n,
{
    if n <= 0 {
        seq![]
    } else {
        let before = sorted_order(keys, n - 1);
        before.insert(insert_position(keys, before, n - 1, 0), (n - 1) as usize)
    }
}

proof fn lemma_insert_position(keys: Seq<Seq<char>>, order: Seq<usize>, item: int, p: int)
    requires
        0 <= p <= order.len(),
    ensures
        p <= insert_position(keys, order, item, p) <= order.len(),
    decreases order.len() - p,
{
    if p < order.len() && !lex_lt(keys[item], keys[order[p] as int]) {
        lemma_insert_position(keys, order, item, p + 1);
    }
}

pub proof fn lemma_sorted_order_len(keys: Seq<Seq<char>>, n: int)
    requires
        0 <= n,
    ensures
        sorted_order(keys, n).len() == n,
        forall|p: int| 0 <= p < n ==> (#[trigger] sorted_order(keys, n)[p] as int) < n,
    decreases n,
{
    if n > 0 {
        lemma_sorted_order_len(keys, n - 1);
        let before = sorted_order(keys, n - 1);
        lemma_insert_position(keys, before, n - 1, 0);
        let p = insert_position(keys, before, n - 1, 0);
        assert forall|q: int| 0 <= q < n implies (#[trigger] sorted_order(keys, n)[q] as int) < n by {
            if q < p {
                assert(sorted_order(keys, n)[q] == before[q]);
            } else if q > p {
                assert(sorted_order(keys, n)[q] == before[q - 1]);
            }
        }
    }
}

/// The indices of `keys` in the order of their keys, equal keys keeping their
/// relative order.
pub fn sort_order(keys: &Vec<String>) -> (r: Vec<usize>)
    ensures
        r@ == sorted_order(views(keys@), keys@.len() as int),
{
    let ghost ks = views(keys@);
    let mut order: Vec<usize> = Vec::new();
    let mut n: usize = 0;
    while n < keys.len()
        invariant
            n <= keys.len(),
            ks == views(keys@),
            order@ == sorted_order(ks, n as int),
        decreases keys.len() - n,
    {
        proof {
            lemma_sorted_order_len(ks, n as int);
        }
        let mut p: usize = 0;
        while p < order.len() && !text_less(keys[n].as_str(), keys[order[p]].as_str())
            invariant
                n < keys.len(),
                p <= order.len(),
                ks == views(keys@),
                order@ == sorted_order(ks, n as int),
                order@.len() == n,
                forall|q: int| 0 <= q < n ==> (#[trigger] order@[q] as int) < n,
                insert_position(ks, order@, n as int, 0) == insert_position(ks, order@, n as int, p as int),
            decreases order.len() - p,
        {
            p += 1;
        }
        order.insert(p, n);
        n += 1;
    }
    order
}


// ---------------------------------------------------------------- laws

/// `a` sorts before `b` or is equal to it.
pub open spec fn lex_le(a: Seq<char>, b: Seq<char>) -> bool {
    !lex_lt(b, a)
}

/// Text order, as a relation.
pub open spec fn text_order() -> spec_fn(Seq<char>, Seq<char>) -> bool {
    |a: Seq<char>, b: Seq<char>| lex_le(a, b)
}

proof fn lemma_lex_from_irreflexive(a: Seq<char>, i: int)
    requires
        0 <= i,
    ensures
        !lex_lt_from(a, a, i),
    decreases a.len() - i,
{
    if i < a.len() {
        lemma_lex_from_irreflexive(a, i + 1);
    }
}

proof fn lemma_lex_from_asymmetric(a: Seq<char>, b: Seq<char>, i: int)
    requires
        0 <= i,
        lex_lt_from(a, b, i),
    ensures
        !lex_lt_from(b, a, i),
    decreases a.len() - i,
{
    if i < a.len() && i < b.len() && a[i] == b[i] {
        lemma_lex_from_asymmetric(a, b, i + 1);
    }
}

proof fn lemma_lex_from_connected(a: Seq<char>, b: Seq<char>, i: int)
    requires
        0 <= i,
        a.subrange(0, i) == b.subrange(0, i),
        i <= a.len(),
        i <= b.len(),
        a != b,
    ensures
        lex_lt_from(a, b, i) || lex_lt_from(b, a, i),
    decreases a.len() - i,
{
    if i < a.len() && i < b.len() && a[i] == b[i] {
        assert(a.subrange(0, i + 1) =~= a.subrange(0, i).push(a[i]));
        assert(b.subrange(0, i + 1) =~= b.subrange(0, i).push(b[i]));
        lemma_lex_from_connected(a, b, i + 1);
    } else if i >= a.len() && i >= b.len() {
        assert(a =~= a.subrange(0, i));
        assert(b =~= b.subrange(0, i));
    } else if i < a.len() && i < b.len() {
        let (x, y) = (a[i], b[i]);
        assert(x != y);
        assert((x as int) < (y as int) || (y as int) < (x as int)) by {
            if x as int == y as int {
                assert(x == y);
            }
        }
    }
}

proof fn lemma_lex_from_transitive(a: Seq<char>, b: Seq<char>, c: Seq<char>, i: int)
    requires
        0 <= i,
        lex_lt_from(a, b, i),
        lex_lt_from(b, c, i),
    ensures
        lex_lt_from(a, c, i),
    decreases a.len() - i,
{
    if i < a.len() && i < b.len() && i < c.len() && a[i] == b[i] && b[i] == c[i] {
        lemma_lex_from_transitive(a, b, c, i + 1);
    }
}

/// Text order is a total order: every two texts compare, and the comparison
/// chains.
pub proof fn lemma_lex_le_total()
    ensures
        vstd::relations::total_ordering(text_order()),
{
    let leq = text_order();
    assert forall|a: Seq<char>| #[trigger] leq(a, a) by {
        lemma_lex_from_irreflexive(a, 0);
    }
    assert forall|a: Seq<char>, b: Seq<char>| #[trigger] leq(a, b) && #[trigger] leq(b, a) implies a == b by {
        if a != b {
            assert(a.subrange(0, 0) =~= b.subrange(0, 0));
            lemma_lex_from_connected(a, b, 0);
        }
    }
    assert forall|a: Seq<char>, b: Seq<char>, c: Seq<char>| #[trigger] leq(a, b) && #[trigger] leq(b, c) implies leq(a, c) by {
        if lex_lt(c, a) {
            if a == b {
            } else if b == c {
            } else {
                assert(a.subrange(0, 0) =~= b.subrange(0, 0));
                assert(b.subrange(0, 0) =~= c.subrange(0, 0));
                lemma_lex_from_connected(a, b, 0);
                lemma_lex_from_connected(b, c, 0);
                lemma_lex_from_transitive(c, a, b, 0);
            }
        }
    }
    assert forall|a: Seq<char>, b: Seq<char>| #[trigger] leq(a, b) || #[trigger] leq(b, a) by {
        if lex_lt(b, a) {
            lemma_lex_from_asymmetric(b, a, 0);
        }
    }
}

/// The keys of the first `n` entries, in sorted order.
pub open spec fn sorted_keys(keys: Seq<Seq<char>>, n: int) -> Seq<Seq<char>> {
    sorted_order(keys, n).map_values(|i: usize| keys[i as int])
}

proof fn lemma_insert_position_bounds(keys: Seq<Seq<char>>, order: Seq<usize>, item: int, p: int)
    requires
        0 <= p <= order.len(),
    ensures
        forall|q: int| p <= q < insert_position(keys, order, item, p) ==> !lex_lt(keys[item], #[trigger] keys[order[q] as int]),
        insert_position(keys, order, item, p) < order.len() ==> lex_lt(keys[item], keys[order[insert_position(keys, order, item, p)] as int]),
    decreases order.len() - p,
{
    if p < order.len() && !lex_lt(keys[item], keys[order[p] as int]) {
        lemma_insert_position_bounds(keys, order, item, p + 1);
    }
}

/// The order puts the keys in ascending order.
pub proof fn lemma_sorted_keys(keys: Seq<Seq<char>>, n: int)
    requires
        0 <= n <= keys.len(),
        keys.len() <= usize::MAX,
    ensures
        vstd::relations::sorted_by(sorted_keys(keys, n), text_order()),
        sorted_keys(keys, n).to_multiset() == keys.take(n).to_multiset(),
    decreases n,
{
    broadcast use vstd::seq_lib::group_to_multiset_ensures;

    lemma_lex_le_total();
    lemma_sorted_order_len(keys, n);
    if n > 0 {
        lemma_sorted_keys(keys, n - 1);
        lemma_sorted_order_len(keys, n - 1);
        let before = sorted_order(keys, n - 1);
        let p = insert_position(keys, before, n - 1, 0);
        lemma_insert_position(keys, before, n - 1, 0);
        lemma_insert_position_bounds(keys, before, n - 1, 0);
        let old_keys = sorted_keys(keys, n - 1);
        let new_keys = sorted_keys(keys, n);
        let so = sorted_order(keys, n);
        assert(so == before.insert(p, (n - 1) as usize));
        assert(new_keys.len() == n && old_keys.len() == n - 1);
        assert forall|q: int| 0 <= q < n implies #[trigger] new_keys[q] == old_keys.insert(p, keys[n - 1])[q] by {
            if q < p {
                assert(so[q] == before[q]);
            } else if q == p {
                assert(so[q] == (n - 1) as usize);
            } else {
                assert(so[q] == before[q - 1]);
            }
        }
        assert(new_keys =~= old_keys.insert(p, keys[n - 1]));
        let leq = text_order();
        let k = keys[n - 1];
        assert forall|i: int, j: int| 0 <= i < j < new_keys.len() implies #[trigger] leq(new_keys[i], new_keys[j]) by {
            if i < p && j < p {
                assert(leq(old_keys[i], old_keys[j]));
            } else if i < p && j == p {
                assert(old_keys[i] == keys[before[i] as int]);
                assert(!lex_lt(k, keys[before[i] as int]));
            } else if i < p && j > p {
                assert(leq(old_keys[i], old_keys[j - 1]));
            } else if i == p {
                assert(old_keys[p] == keys[before[p] as int]);
                assert(lex_lt(k, old_keys[p]));
                lemma_lex_from_asymmetric(k, old_keys[p], 0);
                assert(leq(k, old_keys[p]));
                if j - 1 > p {
                    assert(leq(old_keys[p], old_keys[j - 1]));
                    assert(leq(k, old_keys[j - 1]));
                }
            } else {
                assert(leq(old_keys[i - 1], old_keys[j - 1]));
            }
        }
        assert(keys.take(n) =~= keys.take(n - 1).push(keys[n - 1]));
    }
}


/// The order lists the first `n` entries once each.
pub proof fn lemma_sorted_items<T>(keys: Seq<Seq<char>>, items: Seq<T>, n: int)
    requires
        0 <= n <= keys.len(),
        keys.len() == items.len(),
        keys.len() <= usize::MAX,
    ensures
        sorted_order(keys, n).map_values(|i: usize| items[i as int]).to_multiset() == items.take(n).to_multiset(),
    decreases n,
{
    broadcast use vstd::seq_lib::group_to_multiset_ensures;

    lemma_sorted_order_len(keys, n);
    if n > 0 {
        lemma_sorted_items(keys, items, n - 1);
        lemma_sorted_order_len(keys, n - 1);
        let before = sorted_order(keys, n - 1);
        let p = insert_position(keys, before, n - 1, 0);
        lemma_insert_position(keys, before, n - 1, 0);
        let old_items = before.map_values(|i: usize| items[i as int]);
        let so = sorted_order(keys, n);
        let new_items = so.map_values(|i: usize| items[i as int]);
        assert(so == before.insert(p, (n - 1) as usize));
        assert forall|q: int| 0 <= q < n implies #[trigger] new_items[q] == old_items.insert(p, items[n - 1])[q] by {
            if q < p {
                assert(so[q] == before[q]);
            } else if q == p {
                assert(so[q] == (n - 1) as usize);
            } else {
                assert(so[q] == before[q - 1]);
            }
        }
        assert(new_items =~= old_items.insert(p, items[n - 1]));
        assert(items.take(n) =~= items.take(n - 1).push(items[n - 1]));
    }
}

/// Applying the same function to two sequences with the same elements gives
/// two sequences with the same elements.
pub proof fn lemma_map_multiset<A, B>(s1: Seq<A>, s2: Seq<A>, f: spec_fn(A) -> B)
    requires
        s1.to_multiset() == s2.to_multiset(),
    ensures
        s1.map_values(f).to_multiset() == s2.map_values(f).to_multiset(),
    decreases s1.len(),
{
    broadcast use vstd::seq_lib::group_to_multiset_ensures;
    broadcast use vstd::multiset::group_multiset_axioms;

    if s1.len() == 0 {
        assert(s1.to_multiset().len() == s1.len());
        assert(s2.to_multiset().len() == s2.len());
        assert(s2.len() == 0);
        assert(s1.map_values(f) =~= Seq::<B>::empty());
        assert(s2.map_values(f) =~= Seq::<B>::empty());
    } else {
        let x = s1.last();
        let rest1 = s1.drop_last();
        assert(s1 =~= rest1.push(x));
        assert(s1.to_multiset().count(x) > 0);
        assert(s2.contains(x));
        let j = choose|j: int| 0 <= j < s2.len() && s2[j] == x;
        let rest2 = s2.remove(j);
        assert(rest1.to_multiset() =~= s1.to_multiset().remove(x));
        assert(rest2.to_multiset() =~= s2.to_multiset().remove(x));
        lemma_map_multiset(rest1, rest2, f);
        assert(s1.map_values(f) =~= rest1.map_values(f).push(f(x)));
        assert(s2 =~= rest2.insert(j, x));
        assert(s2.map_values(f) =~= rest2.map_values(f).insert(j, f(x)));
    }
}

} // verus!
