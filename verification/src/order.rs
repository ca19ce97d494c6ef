//! Stable sorting, by insertion.
use vstd::prelude::*;

use crate::text;

verus! {

/// The sorted `s` with `x` put in its place: behind every item that need not
/// come after it. `after(y, x)` says that `y` has to come after `x`.
pub open spec fn placed<T>(s: Seq<T>, x: T, after: spec_fn(T, T) -> bool) -> Seq<T>
    decreases s.len(),
{
    if s.len() > 0 && after(s.last(), x) {
        placed(s.drop_last(), x, after).push(s.last())
    } else {
        s.push(x)
    }
}

/// The items of `s` in order; items of which neither has to come after the
/// other keep the order they had.
pub open spec fn sorted<T>(s: Seq<T>, after: spec_fn(T, T) -> bool) -> Seq<T>
    decreases s.len(),
{
    if s.len() == 0 {
        s
    } else {
        placed(sorted(s.drop_last(), after), s.last(), after)
    }
}

/// Whether no item of `s` has to come after one that stands behind it.
pub open spec fn in_order<T>(s: Seq<T>, after: spec_fn(T, T) -> bool) -> bool {
    forall|i: int, j: int| 0 <= i < j < s.len() ==> !after(s[i], s[j])
}

/// Whether `after` orders the items: no two have to come after each other, and
/// not having to come after is transitive.
pub open spec fn is_order<T>(after: spec_fn(T, T) -> bool) -> bool {
    &&& forall|a: T, b: T| #[trigger] after(a, b) ==> !after(b, a)
    &&& forall|a: T, b: T, c: T|
        !(#[trigger] after(a, b)) && !(#[trigger] after(b, c)) ==> !after(a, c)
}

/// Where `x` goes: all items from `n` on have to come after it, the one in
/// front of `n` does not.
pub proof fn lemma_placed<T>(s: Seq<T>, x: T, after: spec_fn(T, T) -> bool, n: int)
    requires
        0 <= n <= s.len(),
        forall|k: int| n <= k < s.len() ==> after(s[k], x),
        n > 0 ==> !after(s[n - 1], x),
    ensures
        placed(s, x, after) == s.insert(n, x),
    decreases s.len(),
{
    if n < s.len() {
        lemma_placed(s.drop_last(), x, after, n);
        assert(s.drop_last().insert(n, x).push(s.last()) =~= s.insert(n, x));
    } else {
        assert(s.push(x) =~= s.insert(n, x));
    }
}

proof fn lemma_placed_same_items<T>(s: Seq<T>, x: T, after: spec_fn(T, T) -> bool)
    ensures
        placed(s, x, after).to_multiset() == s.to_multiset().insert(x),
        placed(s, x, after).len() == s.len() + 1,
    decreases s.len(),
{
    broadcast use vstd::seq_lib::group_to_multiset_ensures;

    if s.len() > 0 && after(s.last(), x) {
        lemma_placed_same_items(s.drop_last(), x, after);
        assert(s =~= s.drop_last().push(s.last()));
        assert(placed(s, x, after).to_multiset() =~= s.to_multiset().insert(x));
    }
}

/// Sorting keeps the items: none is lost, none is added.
pub proof fn sorting_keeps_the_items<T>(s: Seq<T>, after: spec_fn(T, T) -> bool)
    ensures
        sorted(s, after).to_multiset() == s.to_multiset(),
        sorted(s, after).len() == s.len(),
    decreases s.len(),
{
    broadcast use vstd::seq_lib::group_to_multiset_ensures;

    if s.len() > 0 {
        sorting_keeps_the_items(s.drop_last(), after);
        lemma_placed_same_items(sorted(s.drop_last(), after), s.last(), after);
        assert(s =~= s.drop_last().push(s.last()));
    }
}

proof fn lemma_placed_in_order<T>(s: Seq<T>, x: T, after: spec_fn(T, T) -> bool)
    requires
        is_order(after),
        in_order(s, after),
    ensures
        in_order(placed(s, x, after), after),
        forall|k: int|
            0 <= k < placed(s, x, after).len() ==> #[trigger] placed(s, x, after)[k] == x
                || s.contains(placed(s, x, after)[k]),
    decreases s.len(),
{
    let r = placed(s, x, after);
    if s.len() > 0 && after(s.last(), x) {
        let t = s.drop_last();
        let rt = placed(t, x, after);
        lemma_placed_in_order(t, x, after);
        assert forall|i: int, j: int| 0 <= i < j < r.len() implies !after(r[i], r[j]) by {
            if j == rt.len() {
                assert(r[i] == rt[i]);
                if rt[i] != x {
                    assert(t.contains(rt[i]));
                    let k = choose|k: int| 0 <= k < t.len() && t[k] == rt[i];
                    assert(s[k] == rt[i]);
                    assert(!after(s[k], s[s.len() - 1]));
                }
            } else {
                assert(!after(rt[i], rt[j]));
            }
        }
        assert forall|k: int| 0 <= k < r.len() implies #[trigger] r[k] == x || s.contains(r[k]) by {
            if k < rt.len() {
                assert(rt[k] == x || t.contains(rt[k]));
                if t.contains(rt[k]) {
                    let m = choose|m: int| 0 <= m < t.len() && t[m] == rt[k];
                    assert(s[m] == rt[k]);
                }
            } else {
                assert(s.contains(s.last()));
            }
        }
    } else {
        assert forall|i: int, j: int| 0 <= i < j < r.len() implies !after(r[i], r[j]) by {
            if j == s.len() && i < s.len() - 1 {
                assert(!after(s[i], s[s.len() - 1]));
                assert(!after(s[s.len() - 1], x));
            }
        }
        assert forall|k: int| 0 <= k < r.len() implies #[trigger] r[k] == x || s.contains(r[k]) by {
            if k < s.len() {
                assert(s.contains(s[k]));
            }
        }
    }
}

/// What was sorted is in order.
pub proof fn sorting_puts_in_order<T>(s: Seq<T>, after: spec_fn(T, T) -> bool)
    requires
        is_order(after),
    ensures
        in_order(sorted(s, after), after),
    decreases s.len(),
{
    if s.len() > 0 {
        sorting_puts_in_order(s.drop_last(), after);
        lemma_placed_in_order(sorted(s.drop_last(), after), s.last(), after);
    }
}

/// Sorting what is in order already changes nothing.
pub proof fn sorting_keeps_order<T>(s: Seq<T>, after: spec_fn(T, T) -> bool)
    requires
        in_order(s, after),
    ensures
        sorted(s, after) == s,
    decreases s.len(),
{
    if s.len() > 0 {
        let t = s.drop_last();
        assert forall|i: int, j: int| 0 <= i < j < t.len() implies !after(t[i], t[j]) by {
            assert(!after(s[i], s[j]));
        }
        sorting_keeps_order(t, after);
        if t.len() > 0 {
            assert(!after(s[s.len() - 2], s[s.len() - 1]));
        }
        assert(t.push(s.last()) =~= s);
    }
}

proof fn lemma_first_placed<T>(s: Seq<T>, x: T, after: spec_fn(T, T) -> bool)
    requires
        is_order(after),
        in_order(s, after),
    ensures
        placed(s, x, after)[0] == if s.len() > 0 && !after(s[0], x) {
            s[0]
        } else {
            x
        },
    decreases s.len(),
{
    if s.len() > 0 {
        let front = s.drop_last();
        if after(s.last(), x) {
            assert forall|i: int, j: int| 0 <= i < j < front.len() implies !after(
                front[i],
                front[j],
            ) by {
                assert(!after(s[i], s[j]));
            }
            lemma_first_placed(front, x, after);
            lemma_placed_same_items(front, x, after);
        } else if s.len() > 1 {
            assert(!after(s[0], s[s.len() - 1]));
            assert(!after(s[0], s.last()));
            assert(!after(s.last(), x));
            assert(!after(s[0], x));
        }
    }
}

/// The first of the sorted items need not come after any other, and every item
/// that stood in front of it has to come after it.
pub proof fn first_of_sorted<T>(s: Seq<T>, after: spec_fn(T, T) -> bool) -> (i: int)
    requires
        is_order(after),
        s.len() > 0,
    ensures
        0 <= i < s.len(),
        sorted(s, after).len() > 0,
        sorted(s, after)[0] == s[i],
        forall|j: int| 0 <= j < s.len() ==> !(#[trigger] after(s[i], s[j])),
        forall|j: int| 0 <= j < i ==> #[trigger] after(s[j], s[i]),
    decreases s.len(),
{
    sorting_keeps_the_items(s, after);
    let front = s.drop_last();
    let x = s.last();
    let rest = sorted(front, after);
    sorting_puts_in_order(front, after);
    sorting_keeps_the_items(front, after);
    lemma_first_placed(rest, x, after);
    if front.len() == 0 {
        assert(!after(s[0], s[0]));
        0
    } else {
        let k = first_of_sorted(front, after);
        if after(rest[0], x) {
            let i = s.len() - 1;
            assert forall|j: int| 0 <= j < i implies #[trigger] after(s[j], s[i]) by {
                assert(!after(front[k], front[j]));
                if !after(s[j], x) {
                    assert(!after(front[k], x));
                }
            }
            assert forall|j: int| 0 <= j < s.len() implies !(#[trigger] after(s[i], s[j])) by {
                if j < i {
                    assert(after(s[j], s[i]));
                }
            }
            i
        } else {
            assert forall|j: int| 0 <= j < s.len() implies !(#[trigger] after(s[k], s[j])) by {
                if j < front.len() {
                    assert(!after(front[k], front[j]));
                }
            }
            assert forall|j: int| 0 <= j < k implies #[trigger] after(s[j], s[k]) by {
                assert(after(front[j], front[k]));
            }
            k
        }
    }
}

/// The order of names: `y` has to come after `x` where `x` is before it.
pub open spec fn name_after() -> spec_fn(Seq<char>, Seq<char>) -> bool {
    |y: Seq<char>, x: Seq<char>| text::before(x, y)
}

/// The order of names is one.
pub proof fn name_order()
    ensures
        is_order(name_after()),
{
    let after = name_after();
    assert forall|a: Seq<char>, b: Seq<char>| #[trigger] after(a, b) implies !after(b, a) by {
        if after(b, a) {
            text::before_transitive(a, b, a);
            text::before_irreflexive(a);
        }
    }
    assert forall|a: Seq<char>, b: Seq<char>, c: Seq<char>|
        !(#[trigger] after(a, b)) && !(#[trigger] after(b, c)) implies !after(a, c) by {
        if after(a, c) {
            text::before_total(a, b);
            text::before_total(b, c);
            if a != b && b != c {
                text::before_transitive(a, b, c);
                text::before_transitive(a, c, a);
                text::before_irreflexive(a);
            }
        }
    }
}

/// Puts `names` in order.
pub fn sort_names(names: Vec<String>) -> (r: Vec<String>)
    ensures
        r.deep_view() == sorted(names.deep_view(), name_after()),
{
    let mut r: Vec<String> = Vec::new();
    let mut i: usize = 0;
    let ghost all = names.deep_view();
    let ghost after = name_after();
    assert(all.take(0) =~= Seq::empty());
    assert(r.deep_view() =~= Seq::empty());
    while i < names.len()
        invariant
            i <= names.len(),
            all == names.deep_view(),
            after == name_after(),
            r.deep_view() == sorted(all.take(i as int), after),
        decreases names.len() - i,
    {
        let x = names[i].clone();
        let ghost s = r.deep_view();
        let mut n: usize = r.len();
        while n > 0 && text::is_before(x.as_str(), r[n - 1].as_str())
            invariant
                n <= r.len(),
                s == r.deep_view(),
                after == name_after(),
                forall|k: int| n <= k < s.len() ==> after(s[k], x@),
            decreases n,
        {
            assert(s[n - 1] == r@[n - 1]@);
            n = n - 1;
        }
        proof {
            assert(n > 0 ==> s[n - 1] == r@[n - 1]@);
            lemma_placed(s, x@, after, n as int);
            assert(all.take(i + 1).drop_last() =~= all.take(i as int));
            assert(all[i as int] == names@[i as int]@);
        }
        let ghost word = x@;
        r.insert(n, x);
        assert(r.deep_view() =~= s.insert(n as int, word));
        i = i + 1;
    }
    assert(all.take(names.len() as int) =~= all);
    r
}

proof fn lemma_placing_is_stable<T>(
    s: Seq<T>,
    x: T,
    after: spec_fn(T, T) -> bool,
    like: spec_fn(T) -> bool,
)
    requires
        forall|a: T, b: T| like(a) && like(b) ==> !#[trigger] after(a, b),
    ensures
        placed(s, x, after).filter(like) == if like(x) {
            s.filter(like).push(x)
        } else {
            s.filter(like)
        },
    decreases s.len(),
{
    reveal(Seq::filter);
    if s.len() > 0 && after(s.last(), x) {
        let front = placed(s.drop_last(), x, after);
        lemma_placing_is_stable(s.drop_last(), x, after, like);
        assert(front.push(s.last()).drop_last() =~= front);
        assert(front.push(s.last()).last() == s.last());
    } else {
        assert(s.push(x).drop_last() =~= s);
    }
}

/// Sorting keeps the order of items that none comes after the other: those that
/// are alike stand as they stood.
pub proof fn sorting_is_stable<T>(
    s: Seq<T>,
    after: spec_fn(T, T) -> bool,
    like: spec_fn(T) -> bool,
)
    requires
        forall|a: T, b: T| like(a) && like(b) ==> !#[trigger] after(a, b),
    ensures
        sorted(s, after).filter(like) == s.filter(like),
    decreases s.len(),
{
    reveal(Seq::filter);
    if s.len() > 0 {
        sorting_is_stable(s.drop_last(), after, like);
        lemma_placing_is_stable(sorted(s.drop_last(), after), s.last(), after, like);
    }
}

} // verus!
