//! Which files belong to a configuration: patterns in the names of included
//! files, and the walk from a file to those that it includes.
use vstd::prelude::*;

use crate::nginx::candidates::{NginxScanFile, ScanFileView};
use crate::nginx::source;
use crate::order;
use crate::paths;
use crate::text;

verus! {

// ---------------------------------------------------------------------------
// Patterns
// ---------------------------------------------------------------------------

/// The index of the first `p` in `s` from `i` on, or -1 where there is none.
pub open spec fn find_from(s: Seq<char>, p: Seq<char>, i: int) -> int
    decreases s.len() + 1 - i,
{
    if i < 0 || i > s.len() {
        -1
    } else if text::occurs(s, p, i) {
        i
    } else {
        find_from(s, p, i + 1)
    }
}

/// What is left of `s` behind the parts, each taken at the first place where it
/// occurs behind the one before; `None` where one does not occur.
pub open spec fn behind_parts(s: Seq<char>, parts: Seq<Seq<char>>) -> Option<Seq<char>>
    decreases parts.len(),
{
    if parts.len() == 0 {
        Some(s)
    } else {
        let i = find_from(s, parts[0], 0);
        if i < 0 {
            None
        } else {
            behind_parts(s.skip(i + parts[0].len()), parts.drop_first())
        }
    }
}

/// Whether a value matches a pattern, in which `*` stands for any text. Each
/// part between two stars is taken at the first place where it occurs, the
/// last part too: so `*.conf` does not match `a.conf.conf`.
pub open spec fn wildcard_matches(pattern: Seq<char>, value: Seq<char>) -> bool {
    let parts = text::pieces(pattern, '*');
    if parts.len() == 1 {
        pattern == value
    } else {
        text::starts(value, parts[0]) && match behind_parts(
            value.skip(parts[0].len() as int),
            parts.drop_first(),
        ) {
            Some(rest) => text::ends(pattern, '*') || rest.len() == 0,
            None => false,
        }
    }
}

fn find_part(v: &Vec<char>, p: &Vec<char>, from: usize) -> (r: Option<usize>)
    requires
        from <= v.len(),
    ensures
        match r {
            Some(i) => i == find_from(v@, p@, from as int) && i + p.len() <= v.len(),
            None => find_from(v@, p@, from as int) < 0,
        },
{
    let mut i: usize = from;
    while i <= v.len()
        invariant
            from <= i <= v.len() + 1,
            find_from(v@, p@, from as int) == find_from(v@, p@, i as int),
        decreases v.len() + 1 - i,
    {
        if text::occurs_at(v, p, i) {
            return Some(i);
        }
        if i == v.len() {
            assert(find_from(v@, p@, i + 1) == -1);
            return None;
        }
        i = i + 1;
    }
    None
}

proof fn lemma_find_shift(s: Seq<char>, p: Seq<char>, from: int, i: int)
    requires
        0 <= from <= s.len(),
        0 <= i,
    ensures
        find_from(s, p, from + i) == if find_from(s.skip(from), p, i) < 0 {
            -1
        } else {
            from + find_from(s.skip(from), p, i)
        },
    decreases s.len() + 1 - from - i,
{
    let t = s.skip(from);
    if from + i <= s.len() {
        assert(text::occurs(t, p, i) <==> text::occurs(s, p, from + i)) by {
            if i + p.len() <= t.len() {
                assert(t.subrange(i, i + p.len()) =~= s.subrange(from + i, from + i + p.len()));
            }
        }
        if !text::occurs(t, p, i) {
            lemma_find_shift(s, p, from, i + 1);
        }
    }
}

/// Whether a value matches a pattern.
pub fn wildcard_match(pattern: &str, value: &str) -> (r: bool)
    ensures
        r == wildcard_matches(pattern@, value@),
{
    let parts = text::split(pattern, '*');
    let ghost all = text::pieces(pattern@, '*');
    assert(parts.deep_view().len() == parts.len());
    if parts.len() == 1 {
        return text::same(pattern, value);
    }
    let v = text::chars_of(value);
    proof {
        assert(all.len() >= 1);
        assert(all[0] == parts@[0]@);
    }
    if !text::starts_with(value, parts[0].as_str()) {
        return false;
    }
    let mut at: usize = text::chars_of(parts[0].as_str()).len();
    let mut k: usize = 1;
    let ghost rest = all.drop_first();
    let ghost whole = behind_parts(v@.skip(at as int), rest);
    assert(rest.skip(0) =~= rest);
    while k < parts.len()
        invariant
            1 <= k <= parts.len(),
            at <= v.len(),
            all == parts.deep_view(),
            all == text::pieces(pattern@, '*'),
            all.len() > 1,
            v@ == value@,
            rest == all.drop_first(),
            text::starts(value@, all[0]),
            whole == behind_parts(value@.skip(all[0].len() as int), rest),
            whole == behind_parts(v@.skip(at as int), rest.skip(k - 1)),
        decreases parts.len() - k,
    {
        let part = text::chars_of(parts[k].as_str());
        proof {
            assert(all[k as int] == parts@[k as int]@);
            assert(rest.skip(k - 1)[0] == part@);
            assert(rest.skip(k - 1).drop_first() =~= rest.skip(k as int));
            lemma_find_shift(v@, part@, at as int, 0);
        }
        match find_part(&v, &part, at) {
            Some(i) => {
                proof {
                    let j = i - at;
                    assert(v@.skip(at as int).skip(j + part.len()) =~= v@.skip(i + part.len()));
                }
                at = i + part.len();
            },
            None => {
                return false;
            },
        }
        k = k + 1;
    }
    text::ends_with(pattern, '*') || at == v.len()
}

/// Whether the parts stand in `s` at the given places, from `from` on, in order
/// and without overlap.
pub open spec fn placed_at(parts: Seq<Seq<char>>, s: Seq<char>, at: Seq<int>, from: int) -> bool {
    &&& at.len() == parts.len()
    &&& forall|i: int|
        0 <= i < parts.len() ==> from <= #[trigger] at[i] && text::occurs(s, parts[i], at[i])
    &&& forall|i: int, j: int|
        0 <= i < j < parts.len() ==> #[trigger] at[i] + parts[i].len() <= #[trigger] at[j]
}

/// Whether `s` is the parts, in order, with any text between each two.
pub open spec fn fits(parts: Seq<Seq<char>>, s: Seq<char>) -> bool {
    exists|at: Seq<int>|
        {
            &&& #[trigger] placed_at(parts, s, at, 0)
            &&& parts.len() > 0
            &&& at[0] == 0
            &&& at.last() + parts.last().len() == s.len()
        }
}

proof fn lemma_find(s: Seq<char>, p: Seq<char>, i: int)
    requires
        0 <= i,
    ensures
        find_from(s, p, i) >= 0 ==> i <= find_from(s, p, i) && text::occurs(
            s,
            p,
            find_from(s, p, i),
        ),
        forall|j: int|
            i <= j && #[trigger] text::occurs(s, p, j) ==> 0 <= find_from(s, p, i) <= j,
    decreases s.len() + 1 - i,
{
    if i <= s.len() && !text::occurs(s, p, i) {
        lemma_find(s, p, i + 1);
    }
}

proof fn lemma_occurs_shift(s: Seq<char>, p: Seq<char>, from: int, i: int)
    requires
        0 <= from <= s.len(),
        0 <= i,
    ensures
        text::occurs(s.skip(from), p, i) <==> text::occurs(s, p, from + i),
{
    if i + p.len() <= s.len() - from {
        assert(s.skip(from).subrange(i, i + p.len()) =~= s.subrange(
            from + i,
            from + i + p.len(),
        ));
    }
}

proof fn lemma_places(s: Seq<char>, parts: Seq<Seq<char>>, from: int) -> (at: Seq<int>)
    requires
        parts.len() > 0,
        0 <= from <= s.len(),
        behind_parts(s.skip(from), parts) matches Some(rest) && (rest.len() == 0
            || parts.last().len() == 0),
    ensures
        placed_at(parts, s, at, from),
        at.last() + parts.last().len() == s.len(),
    decreases parts.len(),
{
    reveal_with_fuel(behind_parts, 2);
    let p = parts[0];
    let t = s.skip(from);
    let i = find_from(t, p, 0);
    lemma_find(t, p, 0);
    lemma_occurs_shift(s, p, from, i);
    let next = from + i + p.len();
    assert(t.skip(i + p.len()) =~= s.skip(next));
    if parts.len() == 1 {
        if p.len() == 0 {
            assert(s.subrange(s.len() as int, s.len() as int) =~= p);
            seq![s.len() as int]
        } else {
            assert(s.skip(next).len() == 0);
            seq![from + i]
        }
    } else {
        let rest = parts.drop_first();
        let more = lemma_places(s, rest, next);
        let at = seq![from + i] + more;
        assert forall|k: int| 0 <= k < parts.len() implies from <= #[trigger] at[k] && text::occurs(
            s,
            parts[k],
            at[k],
        ) by {
            if k > 0 {
                assert(at[k] == more[k - 1]);
                assert(parts[k] == rest[k - 1]);
            }
        }
        assert forall|j: int, k: int| 0 <= j < k < parts.len() implies #[trigger] at[j]
            + parts[j].len() <= #[trigger] at[k] by {
            assert(at[k] == more[k - 1]);
            if j > 0 {
                assert(at[j] == more[j - 1]);
                assert(parts[j] == rest[j - 1]);
            }
        }
        at
    }
}

proof fn lemma_placed_are_found(s: Seq<char>, parts: Seq<Seq<char>>, at: Seq<int>, from: int)
    requires
        0 <= from <= s.len(),
        placed_at(parts, s, at, from),
    ensures
        behind_parts(s.skip(from), parts) is Some,
    decreases parts.len(),
{
    if parts.len() > 0 {
        let p = parts[0];
        let t = s.skip(from);
        assert(from <= at[0] && text::occurs(s, p, at[0]));
        lemma_occurs_shift(s, p, from, at[0] - from);
        lemma_find(t, p, 0);
        let i = find_from(t, p, 0);
        let next = from + i + p.len();
        assert(t.skip(i + p.len()) =~= s.skip(next));
        let rest = parts.drop_first();
        let more = at.drop_first();
        assert forall|k: int| 0 <= k < rest.len() implies next <= #[trigger] more[k]
            && text::occurs(s, rest[k], more[k]) by {
            assert(more[k] == at[k + 1]);
            assert(at[0] + parts[0].len() <= at[k + 1]);
        }
        assert forall|j: int, k: int| 0 <= j < k < rest.len() implies #[trigger] more[j]
            + rest[j].len() <= #[trigger] more[k] by {
            assert(at[j + 1] + parts[j + 1].len() <= at[k + 1]);
        }
        lemma_placed_are_found(s, rest, more, next);
    }
}

proof fn lemma_last_piece(s: Seq<char>, c: char)
    ensures
        text::pieces(s, c).len() >= 1,
        text::pieces(s, c).len() == 1 <==> !s.contains(c),
        text::pieces(s, c).len() == 1 ==> text::pieces(s, c)[0] == s,
        s.contains(c) ==> (text::pieces(s, c).last().len() == 0 <==> text::ends(s, c)),
    decreases s.len(),
{
    text::lemma_position_bounds(s, c);
    let n = text::position(s, c) as int;
    if n < s.len() {
        let t = text::tail(s, c);
        lemma_last_piece(t, c);
        text::lemma_position_bounds(t, c);
        assert(s[n] == c);
        assert(s.contains(c));
        let all = text::pieces(s, c);
        assert(all.last() == text::pieces(t, c).last());
        if t.contains(c) {
            assert(t.last() == s.last());
        } else if t.len() > 0 {
            assert(t.last() == s.last());
            assert(t[t.len() - 1] != c);
        }
    }
}

/// What matches a pattern is the parts of the pattern, in order, with any text
/// in the place of each star.
pub proof fn match_fits(pattern: Seq<char>, value: Seq<char>)
    requires
        wildcard_matches(pattern, value),
    ensures
        fits(text::pieces(pattern, '*'), value),
{
    let parts = text::pieces(pattern, '*');
    lemma_last_piece(pattern, '*');
    let n = parts[0].len() as int;
    assert(value.subrange(0, n) =~= value.take(n));
    if parts.len() == 1 {
        assert(value.take(n) =~= value);
        assert(placed_at(parts, value, seq![0], 0));
    } else {
        let rest = parts.drop_first();
        let more = lemma_places(value, rest, n);
        let at = seq![0int] + more;
        assert forall|k: int| 0 <= k < parts.len() implies 0 <= #[trigger] at[k] && text::occurs(
            value,
            parts[k],
            at[k],
        ) by {
            if k > 0 {
                assert(at[k] == more[k - 1]);
                assert(parts[k] == rest[k - 1]);
            }
        }
        assert forall|j: int, k: int| 0 <= j < k < parts.len() implies #[trigger] at[j]
            + parts[j].len() <= #[trigger] at[k] by {
            assert(at[k] == more[k - 1]);
            if j > 0 {
                assert(at[j] == more[j - 1]);
                assert(parts[j] == rest[j - 1]);
            }
        }
        assert(placed_at(parts, value, at, 0));
    }
}

/// A pattern that ends with a star matches everything that fits it.
pub proof fn open_pattern_matches_what_fits(pattern: Seq<char>, value: Seq<char>)
    requires
        text::ends(pattern, '*'),
        fits(text::pieces(pattern, '*'), value),
    ensures
        wildcard_matches(pattern, value),
{
    let parts = text::pieces(pattern, '*');
    assert(pattern[pattern.len() - 1] == '*');
    lemma_last_piece(pattern, '*');
    let at = choose|at: Seq<int>|
        {
            &&& #[trigger] placed_at(parts, value, at, 0)
            &&& parts.len() > 0
            &&& at[0] == 0
            &&& at.last() + parts.last().len() == value.len()
        };
    let n = parts[0].len() as int;
    assert(text::occurs(value, parts[0], at[0]));
    assert(value.subrange(0, n) =~= value.take(n));
    let rest = parts.drop_first();
    let more = at.drop_first();
    assert forall|k: int| 0 <= k < rest.len() implies n <= #[trigger] more[k] && text::occurs(
        value,
        rest[k],
        more[k],
    ) by {
        assert(more[k] == at[k + 1]);
        assert(at[0] + parts[0].len() <= at[k + 1]);
    }
    assert forall|j: int, k: int| 0 <= j < k < rest.len() implies #[trigger] more[j]
        + rest[j].len() <= #[trigger] more[k] by {
        assert(at[j + 1] + parts[j + 1].len() <= at[k + 1]);
    }
    lemma_placed_are_found(value, rest, more, n);
}

/// A pattern without a star matches itself alone.
pub proof fn plain_pattern_matches_itself(pattern: Seq<char>, value: Seq<char>)
    requires
        !pattern.contains('*'),
    ensures
        wildcard_matches(pattern, value) <==> pattern == value,
{
    lemma_last_piece(pattern, '*');
}

/// Where a part may begin: behind the part before it.
pub open spec fn part_start(parts: Seq<Seq<char>>, at: Seq<int>, from: int, i: int) -> int {
    if i == 0 {
        from
    } else {
        at[i - 1] + parts[i - 1].len()
    }
}

/// Whether each part stands in `s` at its first place behind the one before.
pub open spec fn first_places(parts: Seq<Seq<char>>, s: Seq<char>, at: Seq<int>, from: int) -> bool {
    &&& at.len() == parts.len()
    &&& forall|i: int|
        0 <= i < parts.len() ==> {
            &&& part_start(parts, at, from, i) <= #[trigger] at[i]
            &&& text::occurs(s, parts[i], at[i])
        }
    &&& forall|i: int, j: int|
        0 <= i < parts.len() && part_start(parts, at, from, i) <= j < at[i]
            ==> !#[trigger] text::occurs(s, parts[i], j)
}

proof fn lemma_places_of_the_rest(parts: Seq<Seq<char>>, s: Seq<char>, at: Seq<int>, from: int)
    requires
        parts.len() > 0,
        first_places(parts, s, at, from),
    ensures
        first_places(parts.drop_first(), s, at.drop_first(), at[0] + parts[0].len()),
        part_start(parts, at, from, parts.len() as int) == part_start(
            parts.drop_first(),
            at.drop_first(),
            at[0] + parts[0].len(),
            parts.len() - 1,
        ),
{
    let next = at[0] + parts[0].len();
    let rest = parts.drop_first();
    let more = at.drop_first();
    assert forall|k: int| 0 <= k < rest.len() implies {
        &&& part_start(rest, more, next, k) <= #[trigger] more[k]
        &&& text::occurs(s, rest[k], more[k])
    } by {
        assert(more[k] == at[k + 1]);
        assert(part_start(rest, more, next, k) == part_start(parts, at, from, k + 1));
    }
    assert forall|k: int, j: int|
        0 <= k < rest.len() && part_start(rest, more, next, k) <= j < more[k] implies
        !#[trigger] text::occurs(s, rest[k], j) by {
        assert(part_start(rest, more, next, k) == part_start(parts, at, from, k + 1));
        assert(rest[k] == parts[k + 1]);
        assert(!text::occurs(s, parts[k + 1], j));
    }
}

proof fn lemma_places_with_the_first(parts: Seq<Seq<char>>, s: Seq<char>, at: Seq<int>, from: int)
    requires
        parts.len() > 0,
        at.len() == parts.len(),
        from <= at[0],
        text::occurs(s, parts[0], at[0]),
        forall|j: int| from <= j < at[0] ==> !#[trigger] text::occurs(s, parts[0], j),
        first_places(parts.drop_first(), s, at.drop_first(), at[0] + parts[0].len()),
    ensures
        first_places(parts, s, at, from),
{
    let next = at[0] + parts[0].len();
    let rest = parts.drop_first();
    let more = at.drop_first();
    assert forall|k: int| 0 <= k < parts.len() implies {
        &&& part_start(parts, at, from, k) <= #[trigger] at[k]
        &&& text::occurs(s, parts[k], at[k])
    } by {
        if k > 0 {
            assert(at[k] == more[k - 1]);
            assert(part_start(rest, more, next, k - 1) == part_start(parts, at, from, k));
        }
    }
    assert forall|k: int, j: int|
        0 <= k < parts.len() && part_start(parts, at, from, k) <= j < at[k] implies
        !#[trigger] text::occurs(s, parts[k], j) by {
        if k > 0 {
            assert(at[k] == more[k - 1]);
            assert(part_start(rest, more, next, k - 1) == part_start(parts, at, from, k));
            assert(rest[k - 1] == parts[k]);
            assert(!text::occurs(s, rest[k - 1], j));
        }
    }
}

proof fn lemma_first_places(s: Seq<char>, parts: Seq<Seq<char>>, at: Seq<int>, from: int)
    requires
        0 <= from <= s.len(),
        first_places(parts, s, at, from),
    ensures
        0 <= part_start(parts, at, from, parts.len() as int) <= s.len(),
        behind_parts(s.skip(from), parts) == Some(
            s.skip(part_start(parts, at, from, parts.len() as int)),
        ),
    decreases parts.len(),
{
    if parts.len() > 0 {
        let p = parts[0];
        let t = s.skip(from);
        let place = at[0] - from;
        assert(part_start(parts, at, from, 0) <= at[0] && text::occurs(s, p, at[0]));
        lemma_occurs_shift(s, p, from, place);
        lemma_find(t, p, 0);
        let i = find_from(t, p, 0);
        assert(i == place) by {
            lemma_occurs_shift(s, p, from, i);
            if i < place {
                assert(text::occurs(s, parts[0], from + i));
            }
        }
        let next = at[0] + p.len();
        assert(t.skip(i + p.len()) =~= s.skip(next));
        lemma_places_of_the_rest(parts, s, at, from);
        lemma_first_places(s, parts.drop_first(), at.drop_first(), next);
    }
}

proof fn lemma_found_at_first_places(s: Seq<char>, parts: Seq<Seq<char>>, from: int) -> (at: Seq<int>)
    requires
        0 <= from <= s.len(),
        behind_parts(s.skip(from), parts) is Some,
    ensures
        first_places(parts, s, at, from),
    decreases parts.len(),
{
    if parts.len() == 0 {
        Seq::empty()
    } else {
        let p = parts[0];
        let t = s.skip(from);
        let i = find_from(t, p, 0);
        lemma_find(t, p, 0);
        lemma_occurs_shift(s, p, from, i);
        let next = from + i + p.len();
        assert(t.skip(i + p.len()) =~= s.skip(next));
        let more = lemma_found_at_first_places(s, parts.drop_first(), next);
        let at = seq![from + i] + more;
        assert(at.drop_first() =~= more);
        assert forall|j: int| from <= j < at[0] implies !#[trigger] text::occurs(s, p, j) by {
            lemma_occurs_shift(s, p, from, j - from);
            assert(text::occurs(t, p, j - from) <==> text::occurs(s, p, j));
        }
        lemma_places_with_the_first(parts, s, at, from);
        at
    }
}

/// A pattern matches every value in which its parts, each taken at its first
/// place behind the one before, reach the end; the first part stands at the
/// start.
pub proof fn pattern_matches_first_places(pattern: Seq<char>, value: Seq<char>, at: Seq<int>)
    requires
        pattern.contains('*'),
        first_places(text::pieces(pattern, '*'), value, at, 0),
        at[0] == 0,
        at.last() + text::pieces(pattern, '*').last().len() == value.len(),
    ensures
        wildcard_matches(pattern, value),
{
    let parts = text::pieces(pattern, '*');
    lemma_last_piece(pattern, '*');
    let n = parts[0].len() as int;
    assert(text::occurs(value, parts[0], at[0]));
    assert(value.subrange(0, n) =~= value.take(n));
    lemma_places_of_the_rest(parts, value, at, 0);
    lemma_first_places(value, parts.drop_first(), at.drop_first(), n);
}

/// What matches a pattern that does not end with a star has its parts at their
/// first places, and these reach the end: no later place is tried.
pub proof fn closed_match_takes_first_places(pattern: Seq<char>, value: Seq<char>) -> (at: Seq<int>)
    requires
        pattern.contains('*'),
        !text::ends(pattern, '*'),
        wildcard_matches(pattern, value),
    ensures
        first_places(text::pieces(pattern, '*'), value, at, 0),
        at.len() > 0,
        at[0] == 0,
        at.last() + text::pieces(pattern, '*').last().len() == value.len(),
{
    let parts = text::pieces(pattern, '*');
    lemma_last_piece(pattern, '*');
    let n = parts[0].len() as int;
    assert(value.subrange(0, n) =~= value.take(n));
    let more = lemma_found_at_first_places(value, parts.drop_first(), n);
    let at = seq![0int] + more;
    assert(at.drop_first() =~= more);
    lemma_places_with_the_first(parts, value, at, 0);
    lemma_places_of_the_rest(parts, value, at, 0);
    lemma_first_places(value, parts.drop_first(), more, n);
    at
}

/// A start, a star and an ending match every text with that start and that
/// ending in which the ending does not occur before behind the start.
pub proof fn star_matches_any_middle(start: Seq<char>, middle: Seq<char>, ending: Seq<char>)
    requires
        !start.contains('*'),
        !ending.contains('*'),
        find_from(middle + ending, ending, 0) == middle.len(),
    ensures
        wildcard_matches(start + "*"@ + ending, start + middle + ending),
{
    reveal_strlit("*");
    let pattern = start + "*"@ + ending;
    let value = start + middle + ending;
    let rest = middle + ending;
    assert(pattern =~= start.push('*') + ending);
    text::pieces_stand_between_separators(start, '*', ending);
    text::pieces_stand_between_separators(ending, '*', Seq::empty());
    let parts = text::pieces(pattern, '*');
    assert(parts =~= seq![start, ending]);
    assert(parts.drop_first() =~= seq![ending]);
    assert(seq![ending].drop_first() =~= Seq::empty());
    assert(value.take(start.len() as int) =~= start);
    assert(value.skip(start.len() as int) =~= rest);
    reveal_with_fuel(behind_parts, 2);
    let end = (middle.len() + ending.len()) as int;
    assert(behind_parts(rest, seq![ending]) == Some(rest.skip(end)));
}

/// A star and an ending match every text with that ending in which the ending
/// does not occur before.
pub proof fn star_matches_any_front(ending: Seq<char>, front: Seq<char>)
    requires
        !ending.contains('*'),
        find_from(front + ending, ending, 0) == front.len(),
    ensures
        wildcard_matches("*"@ + ending, front + ending),
{
    let none = Seq::<char>::empty();
    star_matches_any_middle(none, front, ending);
    assert(none + "*"@ + ending =~= "*"@ + ending);
    assert(none + front + ending =~= front + ending);
}

/// A start and a star match exactly what begins with the start; a star alone
/// matches everything.
pub proof fn star_matches_any_end(start: Seq<char>, value: Seq<char>)
    requires
        !start.contains('*'),
    ensures
        wildcard_matches(start + "*"@, value) <==> text::starts(value, start),
        wildcard_matches("*"@, value),
{
    reveal_strlit("*");
    let none = Seq::<char>::empty();
    text::pieces_stand_between_separators(start, '*', none);
    text::pieces_stand_between_separators(none, '*', none);
    assert(start + "*"@ =~= start.push('*') + none);
    assert("*"@ =~= none.push('*') + none);
    let parts = text::pieces(start + "*"@, '*');
    assert(parts =~= seq![start, none]);
    assert(parts.drop_first() =~= seq![none]);
    let every = text::pieces("*"@, '*');
    assert(every =~= seq![none, none]);
    assert(every.drop_first() =~= seq![none]);
    assert(seq![none].drop_first() =~= Seq::empty());
    assert(value.take(0) =~= none);
    assert(value.skip(0).subrange(0, 0) =~= none);
    reveal_with_fuel(behind_parts, 2);
    if value.len() >= start.len() {
        assert(value.skip(start.len() as int).subrange(0, 0) =~= none);
        assert(text::occurs(value.skip(start.len() as int), none, 0));
    }
}

/// The names that match a pattern.
pub open spec fn matching(names: Seq<Seq<char>>, pattern: Seq<char>) -> Seq<Seq<char>>
    decreases names.len(),
{
    if names.len() == 0 {
        Seq::empty()
    } else {
        let front = matching(names.drop_last(), pattern);
        if wildcard_matches(pattern, names.last()) {
            front.push(names.last())
        } else {
            front
        }
    }
}

/// The paths of the files in `parent` whose names match a pattern, in the order
/// of their names.
pub open spec fn expanded(parent: Seq<char>, pattern: Seq<char>, names: Seq<Seq<char>>) -> Seq<
    Seq<char>,
> {
    order::sorted(matching(names, pattern), order::name_after()).map_values(
        |name: Seq<char>| paths::below(parent, name),
    )
}

/// The paths of the files in `parent` whose names match a pattern, in the order
/// of their names; `names` are the names of all files there.
pub fn expand_simple_glob(parent: &str, name_pattern: &str, names: &Vec<String>) -> (r: Vec<String>)
    ensures
        r.deep_view() == expanded(parent@, name_pattern@, names.deep_view()),
{
    let ghost all = names.deep_view();
    let mut kept: Vec<String> = Vec::new();
    let mut i: usize = 0;
    assert(all.take(0) =~= Seq::empty());
    assert(kept.deep_view() =~= Seq::empty());
    while i < names.len()
        invariant
            i <= names.len(),
            all == names.deep_view(),
            kept.deep_view() == matching(all.take(i as int), name_pattern@),
        decreases names.len() - i,
    {
        let ghost done = kept.deep_view();
        assert(all.take(i + 1).drop_last() =~= all.take(i as int));
        assert(all[i as int] == names@[i as int]@);
        if wildcard_match(name_pattern, names[i].as_str()) {
            kept.push(names[i].clone());
            assert(kept.deep_view() =~= done.push(all[i as int]));
        }
        i = i + 1;
    }
    assert(all.take(names.len() as int) =~= all);
    let sorted = order::sort_names(kept);
    let ghost list = sorted.deep_view();
    let ghost whole = expanded(parent@, name_pattern@, all);
    let mut r: Vec<String> = Vec::new();
    let mut k: usize = 0;
    assert(r.deep_view() =~= whole.take(0));
    while k < sorted.len()
        invariant
            k <= sorted.len(),
            list == sorted.deep_view(),
            whole == list.map_values(|name: Seq<char>| paths::below(parent@, name)),
            r.deep_view() == whole.take(k as int),
        decreases sorted.len() - k,
    {
        let ghost done = r.deep_view();
        assert(list[k as int] == sorted@[k as int]@);
        r.push(paths::join(parent, sorted[k].as_str()));
        assert(r.deep_view() =~= done.push(whole[k as int]));
        assert(whole.take(k + 1) =~= done.push(whole[k as int]));
        k = k + 1;
    }
    assert(whole.take(sorted.len() as int) =~= whole);
    r
}

proof fn lemma_matching_is_a_filter(names: Seq<Seq<char>>, pattern: Seq<char>)
    ensures
        matching(names, pattern) == names.filter(
            |name: Seq<char>| wildcard_matches(pattern, name),
        ),
    decreases names.len(),
{
    reveal(Seq::filter);
    if names.len() > 0 {
        lemma_matching_is_a_filter(names.drop_last(), pattern);
    }
}

/// The files that a pattern means are those of the directory whose names match,
/// each as often as it is listed, in the order of their names.
pub proof fn pattern_means_what_matches(
    parent: Seq<char>,
    pattern: Seq<char>,
    names: Seq<Seq<char>>,
) -> (meant: Seq<Seq<char>>)
    ensures
        meant.to_multiset() == names.filter(
            |name: Seq<char>| wildcard_matches(pattern, name),
        ).to_multiset(),
        meant.len() == expanded(parent, pattern, names).len(),
        forall|k: int|
            0 <= k < meant.len() ==> {
                &&& #[trigger] expanded(parent, pattern, names)[k] == paths::below(parent, meant[k])
                &&& wildcard_matches(pattern, meant[k])
                &&& names.contains(meant[k])
            },
        forall|i: int|
            0 <= i < names.len() && wildcard_matches(pattern, #[trigger] names[i])
                ==> meant.contains(names[i]),
        forall|i: int, k: int|
            0 <= i < k < meant.len() ==> !text::before(#[trigger] meant[k], #[trigger] meant[i]),
{
    let wanted = |name: Seq<char>| wildcard_matches(pattern, name);
    let kept = matching(names, pattern);
    let meant = order::sorted(kept, order::name_after());
    lemma_matching_is_a_filter(names, pattern);
    order::name_order();
    order::sorting_keeps_the_items(kept, order::name_after());
    order::sorting_puts_in_order(kept, order::name_after());
    broadcast use vstd::seq_lib::group_to_multiset_ensures;
    broadcast use vstd::seq_lib::group_filter_ensures;

    assert forall|k: int| 0 <= k < meant.len() implies {
        &&& #[trigger] expanded(parent, pattern, names)[k] == paths::below(parent, meant[k])
        &&& wildcard_matches(pattern, meant[k])
        &&& names.contains(meant[k])
    } by {
        assert(meant.contains(meant[k]));
        assert(meant.to_multiset().count(meant[k]) > 0);
        assert(kept.contains(meant[k]));
        let j = choose|j: int| 0 <= j < kept.len() && kept[j] == meant[k];
        names.lemma_filter_contains_rev(wanted, kept[j]);
        assert(wanted(kept[j]));
    }
    assert forall|i: int|
        0 <= i < names.len() && wildcard_matches(pattern, #[trigger] names[i]) implies
        meant.contains(names[i]) by {
        assert(wanted(names[i]));
        assert(kept.contains(names[i]));
        assert(kept.to_multiset().count(names[i]) > 0);
    }
    let after = order::name_after();
    assert forall|i: int, k: int| 0 <= i < k < meant.len() implies !text::before(
        #[trigger] meant[k],
        #[trigger] meant[i],
    ) by {
        assert(!after(meant[i], meant[k]));
    }
    meant
}

// ---------------------------------------------------------------------------
// Included files
// ---------------------------------------------------------------------------

/// Which files an include means.
#[derive(Debug)]
pub enum IncludePlan {
    /// None.
    Nothing,
    /// The file with this path, if it is there.
    File(String),
    /// The files of a directory whose names match a pattern.
    Matching { parent: String, name_pattern: String },
}

/// What an [`IncludePlan`] holds.
pub enum PlanView {
    Nothing,
    File(Seq<char>),
    Matching { parent: Seq<char>, name_pattern: Seq<char> },
}

impl DeepView for IncludePlan {
    type V = PlanView;

    open spec fn deep_view(&self) -> PlanView {
        match self {
            IncludePlan::Nothing => PlanView::Nothing,
            IncludePlan::File(path) => PlanView::File(path@),
            IncludePlan::Matching { parent, name_pattern } => PlanView::Matching {
                parent: parent@,
                name_pattern: name_pattern@,
            },
        }
    }
}

/// Which files a path means that may have stars in it. `parent` is its
/// directory, `name` its last part.
pub open spec fn include_plan(
    path: Seq<char>,
    parent: Option<Seq<char>>,
    name: Option<Seq<char>>,
) -> PlanView {
    if !path.contains('*') {
        PlanView::File(path)
    } else {
        match (parent, name) {
            (Some(parent), Some(name_pattern)) => PlanView::Matching { parent, name_pattern },
            _ => PlanView::Nothing,
        }
    }
}

/// The directory from which the includes of a file are read. `parent` is the
/// directory of the file.
pub open spec fn include_base(parent: Option<Seq<char>>) -> Seq<char> {
    match parent {
        Some(dir) => dir,
        None => "/"@,
    }
}

/// Which files a path means that may have stars in it. `parent` is its
/// directory, `name` its last part.
pub fn choose_include(path: &str, parent: Option<String>, name: Option<String>) -> (r: IncludePlan)
    ensures
        r.deep_view() == include_plan(path@, parent.deep_view(), name.deep_view()),
{
    if !text::contains_char(path, '*') {
        return IncludePlan::File(path.to_owned());
    }
    match (parent, name) {
        (Some(parent), Some(name_pattern)) => IncludePlan::Matching { parent, name_pattern },
        _ => IncludePlan::Nothing,
    }
}

/// A path without a star means the file at it, whatever its directory; one with a
/// star means the files of its directory whose names match its last part, and
/// none where it has no directory or no last part.
pub proof fn star_means_the_files_of_a_directory(
    path: Seq<char>,
    parent: Option<Seq<char>>,
    name: Option<Seq<char>>,
    dir: Seq<char>,
    pattern: Seq<char>,
)
    ensures
        !path.contains('*') ==> include_plan(path, parent, name) == PlanView::File(path),
        path.contains('*') ==> include_plan(path, Some(dir), Some(pattern)) == (
        PlanView::Matching { parent: dir, name_pattern: pattern }),
        path.contains('*') && (parent is None || name is None) ==> include_plan(path, parent, name)
            == PlanView::Nothing,
        include_base(Some(dir)) == dir,
        include_base(None) == "/"@,
{
}

/// Which files a path means that may have stars in it.
pub fn plan_include(path: &str) -> (r: IncludePlan)
    ensures
        r.deep_view() == include_plan(path@, paths::parent_path(path@), paths::last_name(path@)),
        forall|dir: Seq<char>, name: Seq<char>|
            paths::plain_dir(dir) && paths::plain_name(name) && path@ == #[trigger] paths::below(
                dir,
                name,
            ) ==> r.deep_view() == include_plan(path@, Some(dir), Some(name)),
{
    choose_include(path, paths::parent(path), paths::file_name(path))
}

/// The paths that the file `path` with the text `source` includes. They may
/// have stars in them.
pub fn list_includes(path: &str, source: &str) -> (r: Vec<String>)
    ensures
        r.deep_view() == source::included_paths(
            text::line_seq(source@),
            include_base(paths::parent_path(path@)),
        ),
        forall|dir: Seq<char>, name: Seq<char>|
            paths::plain_dir(dir) && paths::plain_name(name) && path@ == #[trigger] paths::below(
                dir,
                name,
            ) ==> r.deep_view() == source::included_paths(text::line_seq(source@), dir),
{
    match paths::parent(path) {
        Some(dir) => source::scan_include_paths(source, dir.as_str()),
        None => source::scan_include_paths(source, "/"),
    }
}

// ---------------------------------------------------------------------------
// The walk
// ---------------------------------------------------------------------------

/// The walk from a file to those that it includes. Files are known by their
/// canonical paths; none is read twice.
#[derive(Debug)]
pub struct NginxCollector {
    /// The files to look at, the next one at the end.
    pending: Vec<String>,
    /// The canonical paths of the files that were read.
    seen: Vec<String>,
    files: Vec<NginxScanFile>,
}

/// How far a walk is: the files to look at, the next one first; the canonical
/// paths of the files that were read; and these files.
pub struct WalkView {
    pub pending: Seq<Seq<char>>,
    pub seen: Seq<Seq<char>>,
    pub files: Seq<ScanFileView>,
}

impl DeepView for NginxCollector {
    type V = WalkView;

    closed spec fn deep_view(&self) -> WalkView {
        WalkView {
            pending: self.pending.deep_view().reverse(),
            seen: self.seen.deep_view(),
            files: self.files.deep_view(),
        }
    }
}

/// The start of a walk.
pub open spec fn walk_start(root: Seq<char>) -> WalkView {
    WalkView { pending: seq![root], seen: Seq::empty(), files: Seq::empty() }
}

/// The walk where the next file turned out to be one that was read before.
pub open spec fn passed_over(walk: WalkView) -> WalkView {
    WalkView { pending: walk.pending.drop_first(), ..walk }
}

/// The walk where the next file turned out to be a new one.
pub open spec fn entered(walk: WalkView, canonical: Seq<char>) -> WalkView {
    WalkView { seen: walk.seen.push(canonical), ..walk }
}

/// The walk where the next file was read: what it includes comes next.
pub open spec fn added(walk: WalkView, source: Seq<char>, includes: Seq<Seq<char>>) -> WalkView {
    WalkView {
        pending: includes + walk.pending.drop_first(),
        files: walk.files.push(ScanFileView { path: walk.pending[0], source }),
        ..walk
    }
}

/// Starts a walk from the file `root`.
pub fn collect_nginx_files(root: &str) -> (r: NginxCollector)
    ensures
        r.deep_view() == walk_start(root@),
{
    let mut pending: Vec<String> = Vec::new();
    pending.push(root.to_owned());
    let seen: Vec<String> = Vec::new();
    let files: Vec<NginxScanFile> = Vec::new();
    assert(pending.deep_view().reverse() =~= seq![root@]);
    assert(seen.deep_view() =~= Seq::empty());
    assert(files.deep_view() =~= Seq::empty());
    NginxCollector { pending, seen, files }
}

impl NginxCollector {
    /// The path of the file to look at next, until the walk is at its end.
    pub fn next_file(&self) -> (r: Option<String>)
        ensures
            r.deep_view() == if self.deep_view().pending.len() == 0 {
                None
            } else {
                Some(self.deep_view().pending[0])
            },
    {
        if self.pending.len() == 0 {
            None
        } else {
            Some(self.pending[self.pending.len() - 1].clone())
        }
    }

    /// Takes the canonical path of the next file, and says whether the file is
    /// to be read; it is not where it was read before.
    pub fn enter(&mut self, canonical: String) -> (r: bool)
        requires
            old(self).deep_view().pending.len() > 0,
        ensures
            r == !old(self).deep_view().seen.contains(canonical@),
            final(self).deep_view() == if r {
                entered(old(self).deep_view(), canonical@)
            } else {
                passed_over(old(self).deep_view())
            },
    {
        let ghost walk = self.deep_view();
        if text::is_one_of(canonical.as_str(), &self.seen) {
            let _ = self.pending.pop();
            assert(self.deep_view().pending =~= walk.pending.drop_first());
            false
        } else {
            self.seen.push(canonical);
            assert(self.deep_view().seen =~= walk.seen.push(canonical@));
            true
        }
    }

    /// Takes the text of the next file, and the paths of the files that it
    /// includes.
    pub fn add(&mut self, source: String, includes: &Vec<String>)
        requires
            old(self).deep_view().pending.len() > 0,
        ensures
            final(self).deep_view() == added(
                old(self).deep_view(),
                source@,
                includes.deep_view(),
            ),
    {
        let ghost walk = self.deep_view();
        let ghost stack = self.pending.deep_view();
        let path = match self.pending.pop() {
            Some(path) => path,
            None => String::new(),
        };
        proof {
            assert(path@ == stack.last());
            assert(self.pending.deep_view() =~= stack.drop_last());
        }
        let ghost rest = self.pending.deep_view();
        let ghost file = ScanFileView { path: path@, source: source@ };
        self.files.push(NginxScanFile { path, source });
        assert(self.files.deep_view() =~= walk.files.push(file));
        let ghost all = includes.deep_view();
        let mut i: usize = includes.len();
        assert(self.pending.deep_view() =~= rest + all.skip(i as int).reverse());
        while i > 0
            invariant
                i <= includes.len(),
                all == includes.deep_view(),
                self.seen.deep_view() == walk.seen,
                self.files.deep_view() == walk.files.push(file),
                self.pending.deep_view() == rest + all.skip(i as int).reverse(),
            decreases i,
        {
            let ghost before = self.pending.deep_view();
            i = i - 1;
            self.pending.push(includes[i].clone());
            assert(self.pending.deep_view() =~= before.push(all[i as int]));
            assert(before.push(all[i as int]) =~= rest + all.skip(i as int).reverse());
        }
        assert(self.deep_view().pending =~= all + walk.pending.drop_first());
    }

    /// The files that were read, in order.
    pub fn into_files(self) -> (r: Vec<NginxScanFile>)
        ensures
            r.deep_view() == self.deep_view().files,
    {
        self.files
    }
}

/// A file on disk: its canonical path and, where it can be read, its text and
/// the paths of the files that it includes.
pub struct DiskFile {
    pub canonical: Seq<char>,
    pub contents: Option<(Seq<char>, Seq<Seq<char>>)>,
}

/// The walk over what is on disk, in at most `steps` steps: `None` where a file
/// cannot be read, or where that many steps are not enough.
pub open spec fn walked(
    disk: spec_fn(Seq<char>) -> DiskFile,
    walk: WalkView,
    steps: nat,
) -> Option<WalkView>
    decreases steps,
{
    if walk.pending.len() == 0 {
        Some(walk)
    } else if steps == 0 {
        None
    } else {
        let file = disk(walk.pending[0]);
        if walk.seen.contains(file.canonical) {
            walked(disk, passed_over(walk), (steps - 1) as nat)
        } else {
            match file.contents {
                None => None,
                Some((source, includes)) => walked(
                    disk,
                    added(entered(walk, file.canonical), source, includes),
                    (steps - 1) as nat,
                ),
            }
        }
    }
}

/// What was read, and which files, after `paths` were visited one after the
/// other: a file that was not read before is read, and those that it includes
/// are visited, up to `depth` deep. `None` where a file cannot be read, or where
/// that depth is not enough.
pub open spec fn visited(
    disk: spec_fn(Seq<char>) -> DiskFile,
    paths: Seq<Seq<char>>,
    seen: Seq<Seq<char>>,
    files: Seq<ScanFileView>,
    depth: nat,
) -> Option<(Seq<Seq<char>>, Seq<ScanFileView>)>
    decreases depth, paths.len(),
{
    if paths.len() == 0 {
        Some((seen, files))
    } else if depth == 0 {
        None
    } else {
        let file = disk(paths[0]);
        if seen.contains(file.canonical) {
            visited(disk, paths.drop_first(), seen, files, depth)
        } else {
            match file.contents {
                None => None,
                Some((source, includes)) => match visited(
                    disk,
                    includes,
                    seen.push(file.canonical),
                    files.push(ScanFileView { path: paths[0], source }),
                    (depth - 1) as nat,
                ) {
                    None => None,
                    Some((seen, files)) => visited(disk, paths.drop_first(), seen, files, depth),
                },
            }
        }
    }
}

proof fn lemma_walk_visits(
    disk: spec_fn(Seq<char>) -> DiskFile,
    paths: Seq<Seq<char>>,
    walk: WalkView,
    rest: Seq<Seq<char>>,
    depth: nat,
    more: nat,
) -> (steps: nat)
    requires
        walk.pending == paths + rest,
        visited(disk, paths, walk.seen, walk.files, depth) is Some,
    ensures
        ({
            let (seen, files) = visited(disk, paths, walk.seen, walk.files, depth)->0;
            walked(disk, walk, steps) == walked(
                disk,
                WalkView { pending: rest, seen, files },
                more,
            )
        }),
    decreases depth, paths.len(),
{
    if paths.len() == 0 {
        assert(walk.pending =~= rest);
        more
    } else {
        let file = disk(paths[0]);
        assert(walk.pending[0] == paths[0]);
        assert(walk.pending.drop_first() =~= paths.drop_first() + rest);
        if walk.seen.contains(file.canonical) {
            let n = lemma_walk_visits(
                disk,
                paths.drop_first(),
                passed_over(walk),
                rest,
                depth,
                more,
            );
            n + 1
        } else {
            let (source, includes) = file.contents->0;
            let next = added(entered(walk, file.canonical), source, includes);
            let behind = paths.drop_first() + rest;
            let (seen, files) = visited(
                disk,
                includes,
                next.seen,
                next.files,
                (depth - 1) as nat,
            )->0;
            let after = WalkView { pending: behind, seen, files };
            let n = lemma_walk_visits(disk, paths.drop_first(), after, rest, depth, more);
            assert(next.pending =~= includes + behind);
            let m = lemma_walk_visits(disk, includes, next, behind, (depth - 1) as nat, n);
            m + 1
        }
    }
}

/// The walk reads the files in the order in which they are included: each
/// before those that it includes, and these before what comes behind it.
pub proof fn walk_is_depth_first(
    disk: spec_fn(Seq<char>) -> DiskFile,
    root: Seq<char>,
    depth: nat,
) -> (steps: nat)
    requires
        visited(disk, seq![root], Seq::empty(), Seq::empty(), depth) is Some,
    ensures
        ({
            let (seen, files) = visited(disk, seq![root], Seq::empty(), Seq::empty(), depth)->0;
            walked(disk, walk_start(root), steps) == Some(
                WalkView { pending: Seq::empty(), seen, files },
            )
        }),
{
    assert(walk_start(root).pending =~= seq![root] + Seq::empty());
    lemma_walk_visits(disk, seq![root], walk_start(root), Seq::empty(), depth, 0)
}

/// No file is read twice: the canonical paths of the files that were read are
/// all different, and there is one for each file.
pub proof fn no_file_is_read_twice(
    disk: spec_fn(Seq<char>) -> DiskFile,
    walk: WalkView,
    steps: nat,
)
    requires
        walk.seen.no_duplicates(),
        walk.seen.len() == walk.files.len(),
        walked(disk, walk, steps) is Some,
    ensures
        walked(disk, walk, steps)->0.seen.no_duplicates(),
        walked(disk, walk, steps)->0.seen.len() == walked(disk, walk, steps)->0.files.len(),
    decreases steps,
{
    if walk.pending.len() > 0 {
        let file = disk(walk.pending[0]);
        if walk.seen.contains(file.canonical) {
            no_file_is_read_twice(disk, passed_over(walk), (steps - 1) as nat);
        } else {
            let (source, includes) = file.contents->0;
            let next = added(entered(walk, file.canonical), source, includes);
            assert(next.seen.no_duplicates());
            no_file_is_read_twice(disk, next, (steps - 1) as nat);
        }
    }
}

/// The text of a file on disk that can be read.
pub open spec fn source_of(file: DiskFile) -> Seq<char> {
    match file.contents {
        Some((source, _)) => source,
        None => Seq::empty(),
    }
}

/// The paths that a file on disk includes.
pub open spec fn includes_of(file: DiskFile) -> Seq<Seq<char>> {
    match file.contents {
        Some((_, includes)) => includes,
        None => Seq::empty(),
    }
}

/// Whether every path in `reachable` is that of a file which can be read, with
/// its canonical path in `known`, and which includes only paths in `reachable`.
pub open spec fn closed_under_includes(
    disk: spec_fn(Seq<char>) -> DiskFile,
    reachable: Set<Seq<char>>,
    known: Set<Seq<char>>,
) -> bool {
    forall|path: Seq<char>| #[trigger]
        reachable.contains(path) ==> {
            &&& known.contains(disk(path).canonical)
            &&& disk(path).contents is Some
            &&& forall|k: int|
                0 <= k < includes_of(disk(path)).len() ==> reachable.contains(
                    #[trigger] includes_of(disk(path))[k],
                )
        }
}

proof fn lemma_walk_ends(
    disk: spec_fn(Seq<char>) -> DiskFile,
    walk: WalkView,
    reachable: Set<Seq<char>>,
    known: Set<Seq<char>>,
    left: Set<Seq<char>>,
) -> (steps: nat)
    requires
        closed_under_includes(disk, reachable, known),
        left.finite(),
        forall|c: Seq<char>| #[trigger]
            known.contains(c) && !walk.seen.contains(c) ==> left.contains(c),
        forall|k: int| 0 <= k < walk.pending.len() ==> reachable.contains(#[trigger] walk.pending[k]),
    ensures
        walked(disk, walk, steps) is Some,
    decreases left.len(), walk.pending.len(),
{
    if walk.pending.len() == 0 {
        0
    } else {
        let path = walk.pending[0];
        let file = disk(path);
        assert(reachable.contains(path));
        if walk.seen.contains(file.canonical) {
            let next = passed_over(walk);
            assert forall|k: int| 0 <= k < next.pending.len() implies reachable.contains(
                #[trigger] next.pending[k],
            ) by {
                assert(next.pending[k] == walk.pending[k + 1]);
            }
            lemma_walk_ends(disk, next, reachable, known, left) + 1
        } else {
            let (source, includes) = file.contents->0;
            let next = added(entered(walk, file.canonical), source, includes);
            assert forall|k: int| 0 <= k < next.pending.len() implies reachable.contains(
                #[trigger] next.pending[k],
            ) by {
                if k < includes.len() {
                    assert(reachable.contains(includes_of(disk(path))[k]));
                } else {
                    assert(next.pending[k] == walk.pending[k - includes.len() + 1]);
                }
            }
            let fewer = left.remove(file.canonical);
            assert forall|c: Seq<char>| #[trigger]
                known.contains(c) && !next.seen.contains(c) implies fewer.contains(c) by {
                if walk.seen.contains(c) {
                    let j = choose|j: int| 0 <= j < walk.seen.len() && walk.seen[j] == c;
                    assert(next.seen[j] == c);
                }
                assert(next.seen[walk.seen.len() as int] == file.canonical);
            }
            assert(left.contains(file.canonical));
            lemma_walk_ends(disk, next, reachable, known, fewer) + 1
        }
    }
}

/// The walk comes to its end wherever finitely many files can be reached, and
/// all of them can be read; that they include each other in circles does not
/// matter.
pub proof fn walk_ends(
    disk: spec_fn(Seq<char>) -> DiskFile,
    root: Seq<char>,
    reachable: Set<Seq<char>>,
    known: Set<Seq<char>>,
) -> (steps: nat)
    requires
        reachable.contains(root),
        closed_under_includes(disk, reachable, known),
        known.finite(),
    ensures
        walked(disk, walk_start(root), steps) is Some,
{
    lemma_walk_ends(disk, walk_start(root), reachable, known, known)
}

/// Whether a walk has read the file at `path`, or is still to look at it.
pub open spec fn accounted(
    disk: spec_fn(Seq<char>) -> DiskFile,
    walk: WalkView,
    path: Seq<char>,
) -> bool {
    walk.seen.contains(disk(path).canonical) || walk.pending.contains(path)
}

/// Whether the file that was read at place `i` is what stands on disk, and a
/// walk has read all that it includes, or is still to look at it.
pub open spec fn file_accounted(
    disk: spec_fn(Seq<char>) -> DiskFile,
    walk: WalkView,
    i: int,
) -> bool {
    let read = walk.files[i];
    let file = disk(read.path);
    &&& file.canonical == walk.seen[i]
    &&& file.contents is Some
    &&& source_of(file) == read.source
    &&& forall|k: int|
        0 <= k < includes_of(file).len() ==> accounted(
            disk,
            walk,
            #[trigger] includes_of(file)[k],
        )
}

/// Whether all that a walk has read is accounted for.
pub open spec fn all_accounted(disk: spec_fn(Seq<char>) -> DiskFile, walk: WalkView) -> bool {
    &&& walk.seen.len() == walk.files.len()
    &&& forall|i: int| 0 <= i < walk.files.len() ==> #[trigger] file_accounted(disk, walk, i)
}

proof fn lemma_accounted_passes(
    disk: spec_fn(Seq<char>) -> DiskFile,
    walk: WalkView,
    path: Seq<char>,
)
    requires
        walk.pending.len() > 0,
        accounted(disk, walk, path),
        walk.seen.contains(disk(walk.pending[0]).canonical),
    ensures
        accounted(disk, passed_over(walk), path),
{
    let next = passed_over(walk);
    if !walk.seen.contains(disk(path).canonical) {
        let j = choose|j: int| 0 <= j < walk.pending.len() && walk.pending[j] == path;
        assert(j > 0);
        assert(next.pending[j - 1] == path);
    }
}

proof fn lemma_accounted_added(
    disk: spec_fn(Seq<char>) -> DiskFile,
    walk: WalkView,
    path: Seq<char>,
    source: Seq<char>,
    includes: Seq<Seq<char>>,
)
    requires
        walk.pending.len() > 0,
        accounted(disk, walk, path),
    ensures
        accounted(
            disk,
            added(entered(walk, disk(walk.pending[0]).canonical), source, includes),
            path,
        ),
{
    let c = disk(walk.pending[0]).canonical;
    let next = added(entered(walk, c), source, includes);
    assert(next.seen[walk.seen.len() as int] == c);
    if walk.seen.contains(disk(path).canonical) {
        let j = choose|j: int| 0 <= j < walk.seen.len() && walk.seen[j] == disk(path).canonical;
        assert(next.seen[j] == disk(path).canonical);
    } else {
        let j = choose|j: int| 0 <= j < walk.pending.len() && walk.pending[j] == path;
        if j > 0 {
            assert(next.pending[includes.len() + j - 1] == path);
        }
    }
}

proof fn lemma_all_accounted(disk: spec_fn(Seq<char>) -> DiskFile, walk: WalkView, steps: nat)
    requires
        all_accounted(disk, walk),
        walked(disk, walk, steps) is Some,
    ensures
        all_accounted(disk, walked(disk, walk, steps)->0),
        walked(disk, walk, steps)->0.pending.len() == 0,
        forall|path: Seq<char>|
            accounted(disk, walk, path) ==> #[trigger] accounted(
                disk,
                walked(disk, walk, steps)->0,
                path,
            ),
    decreases steps,
{
    if walk.pending.len() > 0 {
        let file = disk(walk.pending[0]);
        let next = if walk.seen.contains(file.canonical) {
            passed_over(walk)
        } else {
            added(entered(walk, file.canonical), source_of(file), includes_of(file))
        };
        assert forall|path: Seq<char>| accounted(disk, walk, path) implies #[trigger] accounted(
            disk,
            next,
            path,
        ) by {
            if walk.seen.contains(file.canonical) {
                lemma_accounted_passes(disk, walk, path);
            } else {
                lemma_accounted_added(
                    disk,
                    walk,
                    path,
                    source_of(file),
                    includes_of(file),
                );
            }
        }
        assert forall|i: int| 0 <= i < next.files.len() implies #[trigger] file_accounted(
            disk,
            next,
            i,
        ) by {
            if i < walk.files.len() {
                assert(file_accounted(disk, walk, i));
                assert(next.files[i] == walk.files[i]);
                assert(next.seen[i] == walk.seen[i]);
            } else {
                let includes = includes_of(file);
                assert(next.files[i].path == walk.pending[0]);
                assert forall|k: int| 0 <= k < includes.len() implies accounted(
                    disk,
                    next,
                    #[trigger] includes[k],
                ) by {
                    assert(next.pending[k] == includes[k]);
                }
            }
        }
        lemma_all_accounted(disk, next, (steps - 1) as nat);
    }
}

/// Nothing that is included is left out: when the walk is at its end, the root
/// was read, and with each file that was read every file that it includes.
pub proof fn every_include_is_read(
    disk: spec_fn(Seq<char>) -> DiskFile,
    root: Seq<char>,
    steps: nat,
)
    requires
        walked(disk, walk_start(root), steps) is Some,
    ensures
        ({
            let end = walked(disk, walk_start(root), steps)->0;
            &&& end.seen.len() == end.files.len()
            &&& end.seen.contains(disk(root).canonical)
            &&& forall|i: int|
                0 <= i < end.files.len() ==> {
                    &&& disk((#[trigger] end.files[i]).path).canonical == end.seen[i]
                    &&& disk(end.files[i].path).contents is Some
                    &&& source_of(disk(end.files[i].path)) == end.files[i].source
                }
            &&& forall|i: int, k: int|
                0 <= i < end.files.len() && 0 <= k < includes_of(disk(end.files[i].path)).len()
                    ==> end.seen.contains(
                    disk(#[trigger] includes_of(disk(end.files[i].path))[k]).canonical,
                )
        }),
{
    let start = walk_start(root);
    let end = walked(disk, start, steps)->0;
    assert(start.pending[0] == root);
    assert(accounted(disk, start, root));
    lemma_all_accounted(disk, start, steps);
    assert(accounted(disk, end, root));
    assert forall|i: int| 0 <= i < end.files.len() implies {
        &&& disk((#[trigger] end.files[i]).path).canonical == end.seen[i]
        &&& disk(end.files[i].path).contents is Some
        &&& source_of(disk(end.files[i].path)) == end.files[i].source
    } by {
        assert(file_accounted(disk, end, i));
    }
    assert forall|i: int, k: int|
        0 <= i < end.files.len() && 0 <= k < includes_of(disk(
            end.files[i].path,
        )).len() implies end.seen.contains(
        disk(#[trigger] includes_of(disk(end.files[i].path))[k]).canonical,
    ) by {
        assert(file_accounted(disk, end, i));
        assert(accounted(disk, end, includes_of(disk(end.files[i].path))[k]));
    }
}

} // verus!
