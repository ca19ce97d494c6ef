//! Text primitives: the handful of string operations that the rest of the
//! library is written in, each stated over the characters of a string.
use vstd::prelude::*;

verus! {

/// `String::push` of the standard library: the character is appended to the
/// end of the string.
pub assume_specification[ String::push ](s: &mut String, c: char)
    ensures
        final(s)@ == old(s)@.push(c),
;

// ---------------------------------------------------------------------------
// Characters
// ---------------------------------------------------------------------------

/// The characters that Unicode gives the property `White_Space`.
pub open spec fn white(c: char) -> bool {
    let code = c as u32;
    ||| 0x09 <= code <= 0x0d
    ||| code == 0x20
    ||| code == 0x85
    ||| code == 0xa0
    ||| code == 0x1680
    ||| 0x2000 <= code <= 0x200a
    ||| code == 0x2028
    ||| code == 0x2029
    ||| code == 0x202f
    ||| code == 0x205f
    ||| code == 0x3000
}

/// Whether `c` is white space.
pub fn is_whitespace(c: char) -> (r: bool)
    ensures
        r == white(c),
{
    let code: u32 = c as u32;
    (0x09 <= code && code <= 0x0d) || code == 0x20 || code == 0x85 || code == 0xa0 || code == 0x1680
        || (0x2000 <= code && code <= 0x200a) || code == 0x2028 || code == 0x2029 || code == 0x202f
        || code == 0x205f || code == 0x3000
}

/// The characters of `s`, in order.
pub fn chars_of(s: &str) -> (v: Vec<char>)
    ensures
        v@ == s@,
{
    let mut v: Vec<char> = Vec::new();
    for c in it: s.chars()
        invariant
            it.seq() == s@,
            v@ == it.seq().take(it.index() as int),
    {
        v.push(c);
    }
    v
}

/// The string made of the characters of `v` from `from` up to `to`.
pub fn text_of(v: &Vec<char>, from: usize, to: usize) -> (r: String)
    requires
        from <= to <= v.len(),
    ensures
        r@ == v@.subrange(from as int, to as int),
{
    let mut r = String::new();
    let mut i: usize = from;
    while i < to
        invariant
            from <= i <= to <= v.len(),
            r@ == v@.subrange(from as int, i as int),
        decreases to - i,
    {
        r.push(v[i]);
        i = i + 1;
        assert(v@.subrange(from as int, i as int) =~= v@.subrange(from as int, i - 1).push(
            v@[i - 1],
        ));
    }
    r
}

/// Whether two strings hold the same characters.
pub fn same(a: &str, b: &str) -> (r: bool)
    ensures
        r == (a@ == b@),
{
    let x = chars_of(a);
    let y = chars_of(b);
    if x.len() != y.len() {
        return false;
    }
    let mut i: usize = 0;
    while i < x.len()
        invariant
            i <= x.len() == y.len(),
            x@ == a@,
            y@ == b@,
            forall|k: int| 0 <= k < i ==> x@[k] == y@[k],
        decreases x.len() - i,
    {
        if x[i] != y[i] {
            return false;
        }
        i = i + 1;
    }
    assert(a@ =~= b@);
    true
}

// ---------------------------------------------------------------------------
// Order
// ---------------------------------------------------------------------------

/// Whether `a` comes before `b` in the order of strings: by the first
/// character in which they differ, a proper prefix first.
pub open spec fn before(a: Seq<char>, b: Seq<char>) -> bool
    decreases b.len(),
{
    if b.len() == 0 {
        false
    } else if a.len() == 0 {
        true
    } else if a[0] != b[0] {
        (a[0] as u32) < (b[0] as u32)
    } else {
        before(a.drop_first(), b.drop_first())
    }
}

/// Whether `a` comes before `b`.
pub fn is_before(a: &str, b: &str) -> (r: bool)
    ensures
        r == before(a@, b@),
{
    let x = chars_of(a);
    let y = chars_of(b);
    let mut i: usize = 0;
    assert(x@.skip(0) =~= a@);
    assert(y@.skip(0) =~= b@);
    while i < x.len() && i < y.len() && x[i] == y[i]
        invariant
            i <= x.len(),
            i <= y.len(),
            before(a@, b@) == before(x@.skip(i as int), y@.skip(i as int)),
        decreases x.len() - i,
    {
        assert(x@.skip(i as int).drop_first() =~= x@.skip(i + 1));
        assert(y@.skip(i as int).drop_first() =~= y@.skip(i + 1));
        i = i + 1;
    }
    if i >= y.len() {
        return false;
    }
    if i >= x.len() {
        return true;
    }
    let p: u32 = x[i] as u32;
    let q: u32 = y[i] as u32;
    p < q
}

/// No string comes before itself.
pub proof fn before_irreflexive(a: Seq<char>)
    ensures
        !before(a, a),
    decreases a.len(),
{
    if a.len() > 0 {
        before_irreflexive(a.drop_first());
    }
}

/// The order of strings is transitive.
pub proof fn before_transitive(a: Seq<char>, b: Seq<char>, c: Seq<char>)
    requires
        before(a, b),
        before(b, c),
    ensures
        before(a, c),
    decreases a.len(),
{
    if a.len() > 0 && b.len() > 0 && c.len() > 0 {
        if a[0] == b[0] && b[0] == c[0] {
            before_transitive(a.drop_first(), b.drop_first(), c.drop_first());
        }
    }
}

proof fn lemma_codes_differ(a: char, b: char)
    requires
        a != b,
    ensures
        a as u32 != b as u32,
{
}

/// Of two different strings one comes before the other.
pub proof fn before_total(a: Seq<char>, b: Seq<char>)
    ensures
        a == b || before(a, b) || before(b, a),
    decreases a.len(),
{
    if a.len() > 0 && b.len() > 0 && a[0] == b[0] {
        before_total(a.drop_first(), b.drop_first());
        if a.drop_first() == b.drop_first() {
            assert(a =~= seq![a[0]] + a.drop_first());
            assert(b =~= seq![b[0]] + b.drop_first());
        }
    } else if a.len() > 0 && b.len() > 0 {
        lemma_codes_differ(a[0], b[0]);
    } else if a.len() == 0 && b.len() == 0 {
        assert(a =~= b);
    }
}

// ---------------------------------------------------------------------------
// Searching
// ---------------------------------------------------------------------------

/// The index of the first `c` in `s`, or the length of `s` where there is none.
pub open spec fn position(s: Seq<char>, c: char) -> nat
    decreases s.len(),
{
    if s.len() == 0 {
        0
    } else if s[0] == c {
        0
    } else {
        1 + position(s.drop_first(), c)
    }
}

/// The number of `c` in `s`.
pub open spec fn count(s: Seq<char>, c: char) -> nat
    decreases s.len(),
{
    if s.len() == 0 {
        0
    } else {
        count(s.drop_last(), c) + if s.last() == c {
            1nat
        } else {
            0nat
        }
    }
}

/// Whether `s` begins with `p`.
pub open spec fn starts(s: Seq<char>, p: Seq<char>) -> bool {
    s.len() >= p.len() && s.take(p.len() as int) == p
}

/// Whether `s` ends with the character `c`.
pub open spec fn ends(s: Seq<char>, c: char) -> bool {
    s.len() > 0 && s.last() == c
}

/// Whether `p` stands in `s` at index `i`.
pub open spec fn occurs(s: Seq<char>, p: Seq<char>, i: int) -> bool {
    0 <= i && i + p.len() <= s.len() && s.subrange(i, i + p.len()) == p
}

/// Whether `p` stands anywhere in `s`.
pub open spec fn contains_text(s: Seq<char>, p: Seq<char>) -> bool {
    exists|i: int| occurs(s, p, i)
}

pub proof fn lemma_position_bounds(s: Seq<char>, c: char)
    ensures
        position(s, c) <= s.len(),
        position(s, c) < s.len() ==> s[position(s, c) as int] == c,
        forall|k: int| 0 <= k < position(s, c) ==> s[k] != c,
        position(s, c) < s.len() <==> s.contains(c),
    decreases s.len(),
{
    if s.len() > 0 && s[0] != c {
        let t = s.drop_first();
        lemma_position_bounds(t, c);
        assert forall|k: int| 0 <= k < position(s, c) implies s[k] != c by {
            if k > 0 {
                assert(t[k - 1] == s[k]);
            }
        }
        if t.contains(c) {
            let k = choose|k: int| 0 <= k < t.len() && t[k] == c;
            assert(s[k + 1] == c);
        }
        if s.contains(c) {
            let k = choose|k: int| 0 <= k < s.len() && s[k] == c;
            assert(t[k - 1] == c);
        }
    }
}

pub proof fn lemma_position_is(s: Seq<char>, c: char, n: int)
    requires
        0 <= n <= s.len(),
        forall|k: int| 0 <= k < n ==> s[k] != c,
        n < s.len() ==> s[n] == c,
    ensures
        position(s, c) == n,
    decreases s.len(),
{
    if n > 0 {
        let t = s.drop_first();
        assert forall|k: int| 0 <= k < n - 1 implies t[k] != c by {
            assert(t[k] == s[k + 1]);
        }
        lemma_position_is(t, c, n - 1);
    }
}

/// The index of the first `c` in `s`, or the length of `s` where there is none.
pub fn index_of(v: &Vec<char>, c: char) -> (r: usize)
    ensures
        r == position(v@, c),
        r <= v.len(),
{
    let mut i: usize = 0;
    while i < v.len() && v[i] != c
        invariant
            i <= v.len(),
            forall|k: int| 0 <= k < i ==> v@[k] != c,
        decreases v.len() - i,
    {
        i = i + 1;
    }
    proof {
        lemma_position_is(v@, c, i as int);
    }
    i
}

/// Whether `c` stands in `s`.
pub fn contains_char(s: &str, c: char) -> (r: bool)
    ensures
        r == s@.contains(c),
{
    let v = chars_of(s);
    let i: usize = index_of(&v, c);
    proof {
        lemma_position_bounds(v@, c);
    }
    i < v.len()
}

pub proof fn lemma_count_bound(s: Seq<char>, c: char)
    ensures
        count(s, c) <= s.len(),
    decreases s.len(),
{
    if s.len() > 0 {
        lemma_count_bound(s.drop_last(), c);
    }
}

/// How often `needle` stands in `value`.
pub fn count_char(value: &str, needle: char) -> (r: usize)
    ensures
        r == count(value@, needle),
        r <= value@.len(),
{
    let v = chars_of(value);
    let mut n: usize = 0;
    let mut i: usize = 0;
    assert(v@.take(0) =~= Seq::<char>::empty());
    while i < v.len()
        invariant
            i <= v.len(),
            n <= i,
            n == count(v@.take(i as int), needle),
        decreases v.len() - i,
    {
        assert(v@.take(i + 1).drop_last() =~= v@.take(i as int));
        if v[i] == needle {
            n = n + 1;
        }
        i = i + 1;
    }
    assert(v@.take(v.len() as int) =~= value@);
    n
}

/// Whether the characters of `p` stand in `v` from index `i` on.
pub fn occurs_at(v: &Vec<char>, p: &Vec<char>, i: usize) -> (r: bool)
    requires
        i <= v.len(),
    ensures
        r == occurs(v@, p@, i as int),
{
    if v.len() - i < p.len() {
        return false;
    }
    let mut k: usize = 0;
    while k < p.len()
        invariant
            k <= p.len(),
            i + p.len() <= v.len(),
            forall|j: int| 0 <= j < k ==> v@[i + j] == p@[j],
        decreases p.len() - k,
    {
        if v[i + k] != p[k] {
            assert(v@.subrange(i as int, i + p@.len())[k as int] != p@[k as int]);
            return false;
        }
        k = k + 1;
    }
    assert(v@.subrange(i as int, i + p@.len()) =~= p@);
    true
}

/// Whether `s` begins with `p`.
pub fn starts_with(s: &str, p: &str) -> (r: bool)
    ensures
        r == starts(s@, p@),
{
    let v = chars_of(s);
    let q = chars_of(p);
    let r = occurs_at(&v, &q, 0);
    assert(p@.len() <= s@.len() ==> s@.subrange(0, p@.len() as int) =~= s@.take(p@.len() as int));
    r
}

/// Whether `s` ends with the character `c`.
pub fn ends_with(s: &str, c: char) -> (r: bool)
    ensures
        r == ends(s@, c),
{
    let v = chars_of(s);
    v.len() > 0 && v[v.len() - 1] == c
}

/// Whether `p` stands anywhere in `s`.
pub fn contains(s: &str, p: &str) -> (r: bool)
    ensures
        r == contains_text(s@, p@),
{
    let v = chars_of(s);
    let q = chars_of(p);
    let mut i: usize = 0;
    loop
        invariant
            i <= v.len(),
            v@ == s@,
            q@ == p@,
            forall|k: int| 0 <= k < i ==> !occurs(s@, p@, k),
        decreases v.len() - i,
    {
        if occurs_at(&v, &q, i) {
            assert(occurs(s@, p@, i as int));
            return true;
        }
        if i == v.len() {
            return false;
        }
        i = i + 1;
    }
}

// ---------------------------------------------------------------------------
// Cutting at the ends
// ---------------------------------------------------------------------------

/// `s` without the white space at its start.
pub open spec fn trimmed_start(s: Seq<char>) -> Seq<char>
    decreases s.len(),
{
    if s.len() > 0 && white(s[0]) {
        trimmed_start(s.drop_first())
    } else {
        s
    }
}

/// `s` without the white space at its end.
pub open spec fn trimmed_end(s: Seq<char>) -> Seq<char>
    decreases s.len(),
{
    if s.len() > 0 && white(s.last()) {
        trimmed_end(s.drop_last())
    } else {
        s
    }
}

/// `s` without the white space at its start and at its end.
pub open spec fn trimmed(s: Seq<char>) -> Seq<char> {
    trimmed_end(trimmed_start(s))
}

/// `s` without the run of `c` at its start.
pub open spec fn without_start(s: Seq<char>, c: char) -> Seq<char>
    decreases s.len(),
{
    if s.len() > 0 && s[0] == c {
        without_start(s.drop_first(), c)
    } else {
        s
    }
}

/// `s` without the run of `c` at its end.
pub open spec fn without_end(s: Seq<char>, c: char) -> Seq<char>
    decreases s.len(),
{
    if s.len() > 0 && s.last() == c {
        without_end(s.drop_last(), c)
    } else {
        s
    }
}

/// `s` without the runs of `c` at its start and at its end.
pub open spec fn without_ends(s: Seq<char>, c: char) -> Seq<char> {
    without_end(without_start(s, c), c)
}

/// `s` without the copies of `p` that it begins with, one after another.
pub open spec fn without_prefixes(s: Seq<char>, p: Seq<char>) -> Seq<char>
    decreases s.len(),
{
    if p.len() > 0 && starts(s, p) {
        without_prefixes(s.skip(p.len() as int), p)
    } else {
        s
    }
}

/// `s` without the white space at its start and at its end.
pub fn trim<'a>(s: &'a str) -> (r: &'a str)
    ensures
        r@ == trimmed(s@),
{
    let v = chars_of(s);
    let mut from: usize = 0;
    assert(v@.skip(0) =~= s@);
    while from < v.len() && is_whitespace(v[from])
        invariant
            from <= v.len(),
            trimmed_start(s@) == trimmed_start(v@.skip(from as int)),
        decreases v.len() - from,
    {
        assert(v@.skip(from as int).drop_first() =~= v@.skip(from + 1));
        from = from + 1;
    }
    let mut to: usize = v.len();
    assert(v@.subrange(from as int, to as int) =~= v@.skip(from as int));
    while from < to && is_whitespace(v[to - 1])
        invariant
            from <= to <= v.len(),
            trimmed(s@) == trimmed_end(v@.subrange(from as int, to as int)),
        decreases to,
    {
        assert(v@.subrange(from as int, to as int).drop_last() =~= v@.subrange(
            from as int,
            to - 1,
        ));
        to = to - 1;
    }
    s.substring_char(from, to)
}

/// `s` without the run of `c` at its start.
pub fn trim_start_char<'a>(s: &'a str, c: char) -> (r: &'a str)
    ensures
        r@ == without_start(s@, c),
{
    let v = chars_of(s);
    let mut from: usize = 0;
    assert(v@.skip(0) =~= s@);
    while from < v.len() && v[from] == c
        invariant
            from <= v.len(),
            without_start(s@, c) == without_start(v@.skip(from as int), c),
        decreases v.len() - from,
    {
        assert(v@.skip(from as int).drop_first() =~= v@.skip(from + 1));
        from = from + 1;
    }
    assert(v@.skip(from as int) =~= v@.subrange(from as int, v.len() as int));
    s.substring_char(from, v.len())
}

/// `s` without the run of `c` at its end.
pub fn trim_end_char<'a>(s: &'a str, c: char) -> (r: &'a str)
    ensures
        r@ == without_end(s@, c),
{
    let v = chars_of(s);
    let mut to: usize = v.len();
    assert(v@.take(to as int) =~= s@);
    while to > 0 && v[to - 1] == c
        invariant
            to <= v.len(),
            without_end(s@, c) == without_end(v@.take(to as int), c),
        decreases to,
    {
        assert(v@.take(to as int).drop_last() =~= v@.take(to - 1));
        to = to - 1;
    }
    assert(v@.take(to as int) =~= v@.subrange(0, to as int));
    s.substring_char(0, to)
}

/// `s` without the runs of `c` at its start and at its end.
pub fn trim_char<'a>(s: &'a str, c: char) -> (r: &'a str)
    ensures
        r@ == without_ends(s@, c),
{
    trim_end_char(trim_start_char(s, c), c)
}

/// `s` without the copies of `p` that it begins with.
pub fn trim_prefixes<'a>(s: &'a str, p: &str) -> (r: &'a str)
    requires
        p@.len() > 0,
    ensures
        r@ == without_prefixes(s@, p@),
{
    let v = chars_of(s);
    let q = chars_of(p);
    let mut from: usize = 0;
    assert(v@.skip(0) =~= s@);
    while occurs_at(&v, &q, from)
        invariant
            from <= v.len(),
            q@ == p@,
            q@.len() > 0,
            without_prefixes(s@, p@) == without_prefixes(v@.skip(from as int), p@),
        decreases v.len() - from,
    {
        assert(v@.skip(from as int).take(q@.len() as int) =~= v@.subrange(
            from as int,
            from + q@.len(),
        ));
        assert(v@.skip(from as int).skip(q@.len() as int) =~= v@.skip(from + q@.len()));
        from = from + q.len();
    }
    proof {
        let rest = v@.skip(from as int);
        if starts(rest, p@) {
            assert(v@.subrange(from as int, from + q@.len()) =~= rest.take(q@.len() as int));
            assert(occurs(v@, q@, from as int));
        }
    }
    assert(v@.skip(from as int) =~= v@.subrange(from as int, v.len() as int));
    s.substring_char(from, v.len())
}

/// What follows `p` in `s`, where `s` begins with it.
pub fn strip_prefix<'a>(s: &'a str, p: &str) -> (r: Option<&'a str>)
    ensures
        r is Some <==> starts(s@, p@),
        r matches Some(rest) ==> rest@ == s@.skip(p@.len() as int),
{
    if !starts_with(s, p) {
        return None;
    }
    let v = chars_of(s);
    let q = chars_of(p);
    assert(s@.skip(p@.len() as int) =~= s@.subrange(p@.len() as int, s@.len() as int));
    Some(s.substring_char(q.len(), v.len()))
}

// ---------------------------------------------------------------------------
// Splitting
// ---------------------------------------------------------------------------

/// The part of `s` in front of the first `c`; all of `s` where there is none.
pub open spec fn head(s: Seq<char>, c: char) -> Seq<char> {
    s.take(position(s, c) as int)
}

/// The part of `s` behind the first `c`.
pub open spec fn tail(s: Seq<char>, c: char) -> Seq<char> {
    s.skip(position(s, c) as int + 1)
}

/// The index of the last `c` in `s`, or -1 where there is none.
pub open spec fn last_position(s: Seq<char>, c: char) -> int
    decreases s.len(),
{
    if s.len() == 0 {
        -1
    } else if s.last() == c {
        s.len() - 1
    } else {
        last_position(s.drop_last(), c)
    }
}

/// The two parts of `s` around the first `c`.
pub fn split_once<'a>(s: &'a str, c: char) -> (r: Option<(&'a str, &'a str)>)
    ensures
        r is Some <==> s@.contains(c),
        r matches Some((a, b)) ==> a@ == head(s@, c) && b@ == tail(s@, c),
{
    let v = chars_of(s);
    let i: usize = index_of(&v, c);
    proof {
        lemma_position_bounds(s@, c);
    }
    if i < v.len() {
        assert(head(s@, c) =~= s@.subrange(0, i as int));
        assert(tail(s@, c) =~= s@.subrange(i + 1, s@.len() as int));
        Some((s.substring_char(0, i), s.substring_char(i + 1, v.len())))
    } else {
        None
    }
}

/// The part of `s` in front of the first `c`; all of `s` where there is none.
pub fn head_of<'a>(s: &'a str, c: char) -> (r: &'a str)
    ensures
        r@ == head(s@, c),
{
    let v = chars_of(s);
    let i: usize = index_of(&v, c);
    assert(head(s@, c) =~= s@.subrange(0, i as int));
    s.substring_char(0, i)
}

/// The two parts of `s` around the last `c`.
pub fn rsplit_once<'a>(s: &'a str, c: char) -> (r: Option<(&'a str, &'a str)>)
    ensures
        r is Some <==> last_position(s@, c) >= 0,
        r matches Some((a, b)) ==> {
            &&& a@ == s@.take(last_position(s@, c))
            &&& b@ == s@.skip(last_position(s@, c) + 1)
        },
{
    let v = chars_of(s);
    let mut n: usize = v.len();
    assert(v@.take(n as int) =~= s@);
    while n > 0 && v[n - 1] != c
        invariant
            n <= v.len(),
            last_position(s@, c) == last_position(v@.take(n as int), c),
        decreases n,
    {
        assert(v@.take(n as int).drop_last() =~= v@.take(n - 1));
        n = n - 1;
    }
    if n == 0 {
        return None;
    }
    assert(s@.take(n - 1) =~= s@.subrange(0, n - 1));
    assert(s@.skip(n as int) =~= s@.subrange(n as int, s@.len() as int));
    Some((s.substring_char(0, n - 1), s.substring_char(n, v.len())))
}

pub proof fn lemma_last_position_is(s: Seq<char>, c: char, n: int)
    requires
        0 <= n < s.len(),
        s[n] == c,
        forall|k: int| n < k < s.len() ==> s[k] != c,
    ensures
        last_position(s, c) == n,
    decreases s.len(),
{
    if n < s.len() - 1 {
        lemma_last_position_is(s.drop_last(), c, n);
    }
}

pub proof fn lemma_last_position(s: Seq<char>, c: char)
    ensures
        -1 <= last_position(s, c) < s.len(),
        last_position(s, c) >= 0 <==> s.contains(c),
        last_position(s, c) >= 0 ==> s[last_position(s, c)] == c,
        forall|k: int| last_position(s, c) < k < s.len() ==> s[k] != c,
    decreases s.len(),
{
    if s.len() > 0 && s.last() != c {
        let t = s.drop_last();
        lemma_last_position(t, c);
        assert forall|k: int| last_position(s, c) < k < s.len() implies s[k] != c by {
            if k < t.len() {
                assert(t[k] == s[k]);
            }
        }
        if s.contains(c) {
            let k = choose|k: int| 0 <= k < s.len() && s[k] == c;
            assert(t[k] == c);
        }
        if t.contains(c) {
            let k = choose|k: int| 0 <= k < t.len() && t[k] == c;
            assert(s[k] == c);
        }
    }
}

/// The pieces of `s` between its `c`.
pub open spec fn pieces(s: Seq<char>, c: char) -> Seq<Seq<char>>
    decreases s.len(),
{
    proof {
        lemma_position_bounds(s, c);
    }
    if position(s, c) < s.len() {
        seq![head(s, c)] + pieces(tail(s, c), c)
    } else {
        seq![s]
    }
}

/// The pieces of `s` between its `c`.
pub fn split(s: &str, c: char) -> (r: Vec<String>)
    ensures
        r.deep_view() == pieces(s@, c),
{
    let v = chars_of(s);
    let mut r: Vec<String> = Vec::new();
    let mut start: usize = 0;
    let mut i: usize = 0;
    assert(v@.skip(0) =~= s@);
    assert(pieces(s@, c) =~= r.deep_view() + pieces(v@.skip(0), c));
    while i < v.len()
        invariant
            start <= i <= v.len(),
            v@ == s@,
            forall|k: int| start <= k < i ==> v@[k] != c,
            pieces(s@, c) == r.deep_view() + pieces(v@.skip(start as int), c),
        decreases v.len() - i,
    {
        if v[i] == c {
            let ghost rest = v@.skip(start as int);
            let ghost before = r.deep_view();
            proof {
                lemma_position_is(rest, c, i - start);
                assert(head(rest, c) =~= v@.subrange(start as int, i as int));
                assert(tail(rest, c) =~= v@.skip(i + 1));
            }
            r.push(text_of(&v, start, i));
            start = i + 1;
            assert(r.deep_view() =~= before.push(head(rest, c)));
            assert(before + pieces(rest, c) =~= r.deep_view() + pieces(v@.skip(start as int), c));
        }
        i = i + 1;
    }
    let ghost rest = v@.skip(start as int);
    let ghost before = r.deep_view();
    proof {
        lemma_position_is(rest, c, rest.len() as int);
        assert(rest =~= v@.subrange(start as int, v.len() as int));
    }
    r.push(text_of(&v, start, v.len()));
    assert(r.deep_view() =~= before + seq![rest]);
    r
}

/// A line without the carriage return that a line ending may begin with.
pub open spec fn without_cr(s: Seq<char>) -> Seq<char> {
    if ends(s, '\r') {
        s.drop_last()
    } else {
        s
    }
}

/// The lines of `s`: each ends with a line feed, or with a carriage return and
/// a line feed; the ending of the last line is optional.
pub open spec fn line_seq(s: Seq<char>) -> Seq<Seq<char>>
    decreases s.len(),
{
    proof {
        lemma_position_bounds(s, '\n');
    }
    if s.len() == 0 {
        Seq::empty()
    } else if position(s, '\n') < s.len() {
        seq![without_cr(head(s, '\n'))] + line_seq(tail(s, '\n'))
    } else {
        seq![s]
    }
}

/// The lines of `s`.
pub fn lines(s: &str) -> (r: Vec<String>)
    ensures
        r.deep_view() == line_seq(s@),
{
    let v = chars_of(s);
    let mut r: Vec<String> = Vec::new();
    let mut start: usize = 0;
    let mut i: usize = 0;
    assert(v@.skip(0) =~= s@);
    assert(line_seq(s@) =~= r.deep_view() + line_seq(v@.skip(0)));
    while i < v.len()
        invariant
            start <= i <= v.len(),
            v@ == s@,
            forall|k: int| start <= k < i ==> v@[k] != '\n',
            line_seq(s@) == r.deep_view() + line_seq(v@.skip(start as int)),
        decreases v.len() - i,
    {
        if v[i] == '\n' {
            let ghost rest = v@.skip(start as int);
            let ghost before = r.deep_view();
            proof {
                lemma_position_is(rest, '\n', i - start);
                assert(head(rest, '\n') =~= v@.subrange(start as int, i as int));
                assert(tail(rest, '\n') =~= v@.skip(i + 1));
            }
            let end: usize = if i > start && v[i - 1] == '\r' {
                i - 1
            } else {
                i
            };
            assert(without_cr(head(rest, '\n')) =~= v@.subrange(start as int, end as int));
            r.push(text_of(&v, start, end));
            start = i + 1;
            assert(r.deep_view() =~= before.push(without_cr(head(rest, '\n'))));
            assert(before + line_seq(rest) =~= r.deep_view() + line_seq(v@.skip(start as int)));
        }
        i = i + 1;
    }
    if start < v.len() {
        let ghost rest = v@.skip(start as int);
        let ghost before = r.deep_view();
        proof {
            lemma_position_is(rest, '\n', rest.len() as int);
            assert(rest =~= v@.subrange(start as int, v.len() as int));
        }
        r.push(text_of(&v, start, v.len()));
        assert(r.deep_view() =~= before + seq![rest]);
    } else {
        assert(line_seq(v@.skip(start as int)) =~= Seq::empty());
        assert(r.deep_view() =~= r.deep_view() + Seq::<Seq<char>>::empty());
    }
    r
}

/// The number of characters at the start of `s` that are not white space.
pub open spec fn word_len(s: Seq<char>) -> nat
    decreases s.len(),
{
    if s.len() > 0 && !white(s[0]) {
        1 + word_len(s.drop_first())
    } else {
        0
    }
}

pub proof fn lemma_word_len(s: Seq<char>)
    ensures
        word_len(s) <= s.len(),
        forall|k: int| 0 <= k < word_len(s) ==> !white(s[k]),
        word_len(s) < s.len() ==> white(s[word_len(s) as int]),
    decreases s.len(),
{
    if s.len() > 0 && !white(s[0]) {
        let t = s.drop_first();
        lemma_word_len(t);
        assert forall|k: int| 0 <= k < word_len(s) implies !white(s[k]) by {
            if k > 0 {
                assert(t[k - 1] == s[k]);
            }
        }
    }
}

/// The words of `s`: its longest runs of characters that are not white space.
pub open spec fn word_seq(s: Seq<char>) -> Seq<Seq<char>>
    decreases s.len(),
{
    proof {
        lemma_word_len(s);
    }
    if s.len() == 0 {
        Seq::empty()
    } else if white(s[0]) {
        word_seq(s.drop_first())
    } else {
        seq![s.take(word_len(s) as int)] + word_seq(s.skip(word_len(s) as int))
    }
}

/// The word of `s` at index `n`; empty where `s` has fewer words.
pub open spec fn word(s: Seq<char>, n: int) -> Seq<char> {
    if 0 <= n < word_seq(s).len() {
        word_seq(s)[n]
    } else {
        Seq::empty()
    }
}

/// The words of `s`.
pub fn words(s: &str) -> (r: Vec<String>)
    ensures
        r.deep_view() == word_seq(s@),
{
    let v = chars_of(s);
    let mut r: Vec<String> = Vec::new();
    let mut i: usize = 0;
    assert(v@.skip(0) =~= s@);
    assert(word_seq(s@) =~= r.deep_view() + word_seq(v@.skip(0)));
    while i < v.len()
        invariant
            i <= v.len(),
            v@ == s@,
            word_seq(s@) == r.deep_view() + word_seq(v@.skip(i as int)),
        decreases v.len() - i,
    {
        let ghost rest = v@.skip(i as int);
        if is_whitespace(v[i]) {
            assert(rest.drop_first() =~= v@.skip(i + 1));
            i = i + 1;
        } else {
            let start: usize = i;
            let ghost before = r.deep_view();
            assert(rest.skip(0) =~= rest);
            while i < v.len() && !is_whitespace(v[i])
                invariant
                    start <= i <= v.len(),
                    rest == v@.skip(start as int),
                    word_len(rest) == (i - start) + word_len(rest.skip(i - start)),
                decreases v.len() - i,
            {
                assert(rest.skip(i - start).drop_first() =~= rest.skip(i - start + 1));
                i = i + 1;
            }
            assert(rest.take(i - start) =~= v@.subrange(start as int, i as int));
            assert(rest.skip(i - start) =~= v@.skip(i as int));
            proof {
                lemma_word_len(rest);
                assert(word_len(rest.skip(i - start)) == 0);
                if i == start {
                    assert(word_len(rest) == 0);
                }
            }
            r.push(text_of(&v, start, i));
            assert(r.deep_view() =~= before.push(rest.take(i - start)));
            assert(before + word_seq(rest) =~= r.deep_view() + word_seq(v@.skip(i as int)));
        }
    }
    assert(word_seq(v@.skip(i as int)) =~= Seq::empty());
    assert(r.deep_view() =~= r.deep_view() + Seq::<Seq<char>>::empty());
    r
}

/// The word of `s` at index `n`; empty where `s` has fewer words.
pub fn nth_word(s: &str, n: usize) -> (r: String)
    ensures
        r@ == word(s@, n as int),
{
    let all = words(s);
    if n < all.len() {
        assert(all.deep_view()[n as int] == all@[n as int]@);
        all[n].clone()
    } else {
        String::new()
    }
}

// ---------------------------------------------------------------------------
// Building
// ---------------------------------------------------------------------------

/// `s` with `with` in the place of each `p`, searched from the left, the
/// places found not overlapping.
pub open spec fn replaced(s: Seq<char>, p: Seq<char>, with: Seq<char>) -> Seq<char>
    decreases s.len(),
{
    if p.len() == 0 || s.len() == 0 {
        s
    } else if starts(s, p) {
        with + replaced(s.skip(p.len() as int), p, with)
    } else {
        seq![s[0]] + replaced(s.drop_first(), p, with)
    }
}

/// `s` with `with` in the place of each `p`.
pub fn replace(s: &str, p: &str, with: &str) -> (r: String)
    requires
        p@.len() > 0,
    ensures
        r@ == replaced(s@, p@, with@),
{
    let v = chars_of(s);
    let q = chars_of(p);
    let mut r = String::new();
    let mut i: usize = 0;
    assert(v@.skip(0) =~= s@);
    assert(replaced(s@, p@, with@) =~= r@ + replaced(v@.skip(0), p@, with@));
    while i < v.len()
        invariant
            i <= v.len(),
            q@ == p@,
            p@.len() > 0,
            replaced(s@, p@, with@) == r@ + replaced(v@.skip(i as int), p@, with@),
        decreases v.len() - i,
    {
        let ghost rest = v@.skip(i as int);
        let ghost done = r@;
        let found = occurs_at(&v, &q, i);
        assert(i + q@.len() <= v@.len() ==> rest.take(q@.len() as int) =~= v@.subrange(
            i as int,
            i + q@.len(),
        ));
        assert(found == starts(rest, p@));
        if found {
            assert(rest.skip(q@.len() as int) =~= v@.skip(i + q@.len()));
            r.append(with);
            i = i + q.len();
        } else {
            assert(rest.drop_first() =~= v@.skip(i + 1));
            r.push(v[i]);
            i = i + 1;
        }
        assert(done + replaced(rest, p@, with@) =~= r@ + replaced(v@.skip(i as int), p@, with@));
    }
    assert(r@ + replaced(v@.skip(i as int), p@, with@) =~= r@);
    r
}

/// `a` with `b` behind it.
pub fn concat(a: &str, b: &str) -> (r: String)
    ensures
        r@ == a@ + b@,
{
    let mut r = a.to_owned();
    r.append(b);
    r
}

/// The texts of `parts` with `separator` between each two.
pub open spec fn joined(parts: Seq<Seq<char>>, separator: Seq<char>) -> Seq<char>
    decreases parts.len(),
{
    if parts.len() == 0 {
        Seq::empty()
    } else if parts.len() == 1 {
        parts[0]
    } else {
        joined(parts.drop_last(), separator) + separator + parts.last()
    }
}

/// The texts of `parts` with `separator` between each two.
pub fn join(parts: &Vec<String>, separator: &str) -> (r: String)
    ensures
        r@ == joined(parts.deep_view(), separator@),
{
    let mut r = String::new();
    let mut i: usize = 0;
    let ghost all = parts.deep_view();
    while i < parts.len()
        invariant
            i <= parts.len(),
            all == parts.deep_view(),
            r@ == joined(all.take(i as int), separator@),
        decreases parts.len() - i,
    {
        assert(all.take(i + 1).drop_last() =~= all.take(i as int));
        assert(all[i as int] == parts@[i as int]@);
        if i > 0 {
            r.append(separator);
        }
        r.append(parts[i].as_str());
        i = i + 1;
        assert(r@ =~= joined(all.take(i as int), separator@));
    }
    assert(all.take(parts.len() as int) =~= all);
    r
}

/// A copy of a list of strings.
pub fn copy_all(list: &Vec<String>) -> (r: Vec<String>)
    ensures
        r.deep_view() == list.deep_view(),
{
    let mut r: Vec<String> = Vec::new();
    let mut i: usize = 0;
    while i < list.len()
        invariant
            i <= list.len(),
            r@ == list@.take(i as int),
        decreases list.len() - i,
    {
        r.push(list[i].clone());
        i = i + 1;
        assert(list@.take(i as int) =~= list@.take(i - 1).push(list@[i - 1]));
    }
    assert(r@ =~= list@);
    r
}

/// An optional text, borrowed.
pub fn as_text(value: &Option<String>) -> (r: Option<&str>)
    ensures
        r.deep_view() == value.deep_view(),
{
    match value {
        Some(s) => Some(s.as_str()),
        None => None,
    }
}

/// Whether `wanted` is one of `list`.
pub fn is_one_of(wanted: &str, list: &Vec<String>) -> (r: bool)
    ensures
        r == list.deep_view().contains(wanted@),
{
    let mut i: usize = 0;
    while i < list.len()
        invariant
            i <= list.len(),
            forall|k: int| 0 <= k < i ==> list.deep_view()[k] != wanted@,
        decreases list.len() - i,
    {
        if same(list[i].as_str(), wanted) {
            assert(list.deep_view()[i as int] == wanted@);
            return true;
        }
        i = i + 1;
    }
    false
}

// ---------------------------------------------------------------------------
// Laws
// ---------------------------------------------------------------------------

proof fn lemma_white_start(a: Seq<char>, s: Seq<char>)
    requires
        forall|k: int| 0 <= k < a.len() ==> white(#[trigger] a[k]),
    ensures
        trimmed_start(a + s) == trimmed_start(s),
    decreases a.len(),
{
    if a.len() == 0 {
        assert(a + s =~= s);
    } else {
        assert((a + s)[0] == a[0]);
        assert((a + s).drop_first() =~= a.drop_first() + s);
        assert forall|k: int| 0 <= k < a.drop_first().len() implies white(
            #[trigger] a.drop_first()[k],
        ) by {
            assert(a.drop_first()[k] == a[k + 1]);
        }
        lemma_white_start(a.drop_first(), s);
    }
}

proof fn lemma_white_end(s: Seq<char>, b: Seq<char>)
    requires
        forall|k: int| 0 <= k < b.len() ==> white(#[trigger] b[k]),
    ensures
        trimmed_end(s + b) == trimmed_end(s),
    decreases b.len(),
{
    if b.len() == 0 {
        assert(s + b =~= s);
    } else {
        assert((s + b).last() == b[b.len() - 1]);
        assert((s + b).drop_last() =~= s + b.drop_last());
        lemma_white_end(s, b.drop_last());
    }
}

/// Trimming takes the white space at both ends away, and nothing else.
pub proof fn trimming_takes_the_ends(a: Seq<char>, m: Seq<char>, b: Seq<char>)
    requires
        forall|k: int| 0 <= k < a.len() ==> white(#[trigger] a[k]),
        forall|k: int| 0 <= k < b.len() ==> white(#[trigger] b[k]),
        m.len() > 0 ==> !white(m[0]) && !white(m.last()),
    ensures
        trimmed(a + m + b) == m,
{
    assert(a + m + b =~= a + (m + b));
    lemma_white_start(a, m + b);
    if m.len() == 0 {
        assert(m + b =~= b + m);
        lemma_white_start(b, m);
    } else {
        assert((m + b)[0] == m[0]);
        lemma_white_end(m, b);
    }
}

/// A run of one character is taken away at the ends, and nothing else.
pub proof fn stripping_takes_the_ends(a: Seq<char>, m: Seq<char>, b: Seq<char>, c: char)
    requires
        forall|k: int| 0 <= k < a.len() ==> #[trigger] a[k] == c,
        forall|k: int| 0 <= k < b.len() ==> #[trigger] b[k] == c,
    ensures
        m.len() > 0 && m[0] != c ==> without_start(a + m, c) == m,
        m.len() > 0 && m.last() != c ==> without_end(m + b, c) == m,
        m.len() > 0 && m[0] != c && m.last() != c ==> without_ends(a + m + b, c) == m,
        without_start(a, c).len() == 0,
        without_end(b, c).len() == 0,
    decreases a.len() + b.len(),
{
    if a.len() > 0 {
        assert((a + m)[0] == a[0]);
        assert((a + m).drop_first() =~= a.drop_first() + m);
        assert((a + m + b)[0] == a[0]);
        assert((a + m + b).drop_first() =~= a.drop_first() + m + b);
        assert forall|k: int| 0 <= k < a.drop_first().len() implies #[trigger] a.drop_first()[k]
            == c by {
            assert(a.drop_first()[k] == a[k + 1]);
        }
        stripping_takes_the_ends(a.drop_first(), m, b, c);
    } else {
        assert(a + m =~= m);
        assert(a + m + b =~= m + b);
        if m.len() > 0 {
            assert((m + b)[0] == m[0]);
        }
        if b.len() > 0 {
            assert((m + b).last() == b[b.len() - 1]);
            assert((m + b).drop_last() =~= m + b.drop_last());
            assert((a + m + b.drop_last()) =~= m + b.drop_last());
            stripping_takes_the_ends(a, m, b.drop_last(), c);
        } else {
            assert(m + b =~= m);
        }
    }
}

/// A text is taken away at the start as often as it stands there.
pub proof fn prefixes_are_taken_away(p: Seq<char>, s: Seq<char>)
    requires
        p.len() > 0,
    ensures
        without_prefixes(p + s, p) == without_prefixes(s, p),
        !starts(s, p) ==> without_prefixes(p + s, p) == s,
{
    assert((p + s).take(p.len() as int) =~= p);
    assert((p + s).skip(p.len() as int) =~= s);
}

/// A text is cut at the first or the last of a character.
pub proof fn cut_is_at_the_character(a: Seq<char>, c: char, b: Seq<char>)
    ensures
        !a.contains(c) ==> head(a.push(c) + b, c) == a && tail(a.push(c) + b, c) == b,
        !a.contains(c) ==> head(a, c) == a && position(a, c) == a.len() && last_position(a, c) < 0,
        !b.contains(c) ==> last_position(a.push(c) + b, c) == a.len(),
{
    let s = a.push(c) + b;
    assert(s[a.len() as int] == c);
    if !a.contains(c) {
        assert forall|k: int| 0 <= k < a.len() implies s[k] != c && a[k] != c by {
            assert(s[k] == a[k]);
            assert(a.contains(a[k]));
        }
        lemma_position_is(s, c, a.len() as int);
        lemma_position_is(a, c, a.len() as int);
        lemma_last_position(a, c);
        assert(head(s, c) =~= a);
        assert(tail(s, c) =~= b);
        assert(head(a, c) =~= a);
    }
    if !b.contains(c) {
        assert forall|k: int| a.len() < k < s.len() implies s[k] != c by {
            assert(s[k] == b[k - a.len() - 1]);
            assert(b.contains(b[k - a.len() - 1]));
        }
        lemma_last_position_is(s, c, a.len() as int);
    }
}

/// The pieces of a text are what stands between the separators: none holds
/// one, and none is left out.
pub proof fn pieces_stand_between_separators(a: Seq<char>, c: char, b: Seq<char>)
    requires
        !a.contains(c),
    ensures
        pieces(a, c) == seq![a],
        pieces(a.push(c) + b, c) == seq![a] + pieces(b, c),
{
    cut_is_at_the_character(a, c, b);
    lemma_position_bounds(a.push(c) + b, c);
    assert((a.push(c) + b)[a.len() as int] == c);
}

/// The lines of a text are what stands in front of each end of line, and what
/// is left behind the last; a carriage return before the end of line is part of
/// it.
pub proof fn lines_stand_before_their_ends(a: Seq<char>, b: Seq<char>)
    requires
        !a.contains('\n'),
    ensures
        line_seq(a) == if a.len() == 0 {
            Seq::empty()
        } else {
            seq![a]
        },
        !ends(a, '\r') ==> line_seq(a.push('\n') + b) == seq![a] + line_seq(b),
        line_seq(a.push('\r').push('\n') + b) == seq![a] + line_seq(b),
{
    cut_is_at_the_character(a, '\n', b);
    lemma_position_bounds(a.push('\n') + b, '\n');
    assert((a.push('\n') + b)[a.len() as int] == '\n');
    let r = a.push('\r');
    assert(!r.contains('\n')) by {
        assert forall|k: int| 0 <= k < r.len() implies r[k] != '\n' by {
            if k < a.len() {
                assert(a.contains(a[k]));
            }
        }
    }
    cut_is_at_the_character(r, '\n', b);
    lemma_position_bounds(r.push('\n') + b, '\n');
    assert((r.push('\n') + b)[r.len() as int] == '\n');
    assert(r.drop_last() =~= a);
}

proof fn lemma_word_len_is(w: Seq<char>, s: Seq<char>)
    requires
        forall|k: int| 0 <= k < w.len() ==> !white(#[trigger] w[k]),
        s.len() > 0 ==> white(s[0]),
    ensures
        word_len(w + s) == w.len(),
    decreases w.len(),
{
    if w.len() == 0 {
        assert(w + s =~= s);
    } else {
        assert((w + s)[0] == w[0]);
        assert((w + s).drop_first() =~= w.drop_first() + s);
        assert forall|k: int| 0 <= k < w.drop_first().len() implies !white(
            #[trigger] w.drop_first()[k],
        ) by {
            assert(w.drop_first()[k] == w[k + 1]);
        }
        lemma_word_len_is(w.drop_first(), s);
    }
}

/// The words of a text are the runs of characters between white space.
pub proof fn words_stand_between_white_space(a: Seq<char>, w: Seq<char>, b: Seq<char>)
    requires
        forall|k: int| 0 <= k < a.len() ==> white(#[trigger] a[k]),
        forall|k: int| 0 <= k < w.len() ==> !white(#[trigger] w[k]),
        b.len() > 0 ==> white(b[0]),
    ensures
        word_seq(a).len() == 0,
        w.len() > 0 ==> word_seq(a + w + b) == seq![w] + word_seq(b),
    decreases a.len(),
{
    if a.len() == 0 {
        assert(a + w + b =~= w + b);
        if w.len() > 0 {
            lemma_word_len_is(w, b);
            assert((w + b)[0] == w[0]);
            assert((w + b).take(w.len() as int) =~= w);
            assert((w + b).skip(w.len() as int) =~= b);
        }
    } else {
        assert((a + w + b)[0] == a[0]);
        assert((a + w + b).drop_first() =~= a.drop_first() + w + b);
        assert forall|k: int| 0 <= k < a.drop_first().len() implies white(
            #[trigger] a.drop_first()[k],
        ) by {
            assert(a.drop_first()[k] == a[k + 1]);
        }
        words_stand_between_white_space(a.drop_first(), w, b);
    }
}

/// A text occurs where it is written, and only there: at `i` when `i`
/// characters stand in front of it.
pub proof fn text_occurs_where_it_stands(a: Seq<char>, p: Seq<char>, b: Seq<char>)
    ensures
        occurs(a + p + b, p, a.len() as int),
        contains_text(a + p + b, p),
        starts(p + b, p),
{
    assert((a + p + b).subrange(a.len() as int, (a.len() + p.len()) as int) =~= p);
    assert(occurs(a + p + b, p, a.len() as int));
    assert((p + b).take(p.len() as int) =~= p);
}

/// What a text contains can be cut out of it.
pub proof fn contained_text_is_part_of_it(s: Seq<char>, p: Seq<char>)
    ensures
        contains_text(s, p) ==> exists|a: Seq<char>, b: Seq<char>| s == #[trigger] (a + p + b),
        starts(s, p) ==> s == p + s.skip(p.len() as int),
{
    if contains_text(s, p) {
        let i = choose|i: int| occurs(s, p, i);
        assert(s =~= s.take(i) + p + s.skip(i + p.len()));
    }
    if starts(s, p) {
        assert(s =~= s.take(p.len() as int) + s.skip(p.len() as int));
    }
}

/// The first place of a text is filled with the other one, what stands in front
/// of it is kept, and the rest goes the same way; a text without such a place
/// is kept.
pub proof fn each_place_is_filled(a: Seq<char>, p: Seq<char>, b: Seq<char>, with: Seq<char>)
    requires
        p.len() > 0,
        forall|i: int| 0 <= i < a.len() ==> !#[trigger] occurs(a + p, p, i),
    ensures
        replaced(a + p + b, p, with) == a + with + replaced(b, p, with),
    decreases a.len(),
{
    let s = a + p + b;
    if a.len() == 0 {
        assert(s =~= p + b);
        assert(s.take(p.len() as int) =~= p);
        assert(s.skip(p.len() as int) =~= b);
        assert(a + with =~= with);
    } else {
        assert(!starts(s, p)) by {
            if starts(s, p) {
                assert((a + p).subrange(0, p.len() as int) =~= s.take(p.len() as int));
                assert(occurs(a + p, p, 0));
            }
        }
        let t = a.drop_first();
        assert(s.drop_first() =~= t + p + b);
        assert forall|i: int| 0 <= i < t.len() implies !#[trigger] occurs(t + p, p, i) by {
            if occurs(t + p, p, i) {
                assert((a + p).subrange(i + 1, i + 1 + p.len()) =~= (t + p).subrange(
                    i,
                    i + p.len(),
                ));
                assert(occurs(a + p, p, i + 1));
            }
        }
        each_place_is_filled(t, p, b, with);
        assert(seq![s[0]] + (t + with + replaced(b, p, with)) =~= a + with + replaced(b, p, with));
    }
}

/// A text that does not contain the other one is kept.
pub proof fn nothing_is_filled_elsewhere(s: Seq<char>, p: Seq<char>, with: Seq<char>)
    requires
        !contains_text(s, p),
    ensures
        replaced(s, p, with) == s,
    decreases s.len(),
{
    if p.len() > 0 && s.len() > 0 {
        assert(!starts(s, p)) by {
            if starts(s, p) {
                assert(s.subrange(0, p.len() as int) =~= s.take(p.len() as int));
                assert(occurs(s, p, 0));
            }
        }
        let t = s.drop_first();
        assert(!contains_text(t, p)) by {
            if contains_text(t, p) {
                let i = choose|i: int| occurs(t, p, i);
                assert(s.subrange(i + 1, i + 1 + p.len()) =~= t.subrange(i, i + p.len()));
                assert(occurs(s, p, i + 1));
            }
        }
        nothing_is_filled_elsewhere(t, p, with);
        assert(seq![s[0]] + t =~= s);
    }
}

/// Texts are joined with one separator between each two.
pub proof fn joined_texts_follow_each_other(
    a: Seq<Seq<char>>,
    b: Seq<Seq<char>>,
    separator: Seq<char>,
)
    ensures
        a.len() > 0 && b.len() > 0 ==> joined(a + b, separator) == joined(a, separator) + separator
            + joined(b, separator),
        a.len() == 1 ==> joined(a, separator) == a[0],
        a.len() == 0 ==> joined(a, separator).len() == 0,
    decreases b.len(),
{
    if a.len() > 0 && b.len() > 0 {
        assert((a + b).last() == b.last());
        assert((a + b).drop_last() =~= a + b.drop_last());
        if b.len() == 1 {
            assert(a + b.drop_last() =~= a);
        } else {
            joined_texts_follow_each_other(a, b.drop_last(), separator);
            assert(joined(a, separator) + separator + joined(b.drop_last(), separator) + separator
                + b.last() =~= joined(a, separator) + separator + (joined(b.drop_last(), separator)
                + separator + b.last()));
        }
    }
}

/// Each occurrence of a character is counted once.
pub proof fn every_occurrence_counts(a: Seq<char>, b: Seq<char>, c: char)
    ensures
        count(a + b, c) == count(a, c) + count(b, c),
        count(seq![c], c) == 1,
        count(a, c) == 0 <==> !a.contains(c),
    decreases a.len() + b.len(),
{
    reveal_with_fuel(count, 2);
    if b.len() > 0 {
        assert((a + b).last() == b.last());
        assert((a + b).drop_last() =~= a + b.drop_last());
        every_occurrence_counts(a, b.drop_last(), c);
    } else {
        assert(a + b =~= a);
        if a.len() > 0 {
            every_occurrence_counts(a.drop_last(), b, c);
            let t = a.drop_last();
            assert(a =~= t.push(a.last()));
            assert(a[a.len() - 1] == a.last());
            if t.contains(c) {
                let k = choose|k: int| 0 <= k < t.len() && t[k] == c;
                assert(a[k] == c);
            } else if a.contains(c) {
                let k = choose|k: int| 0 <= k < a.len() && a[k] == c;
                if k < t.len() {
                    assert(t[k] == c);
                }
            }
        }
    }
}

/// Texts are ordered by the first character in which they differ, and a text
/// comes before what it begins.
pub proof fn first_difference_orders(p: Seq<char>, a: Seq<char>, b: Seq<char>)
    ensures
        b.len() > 0 ==> before(p, p + b),
        a.len() > 0 && b.len() > 0 && a[0] != b[0] ==> (before(p + a, p + b) <==> (a[0] as u32) < (
        b[0] as u32)),
    decreases p.len(),
{
    if p.len() == 0 {
        assert(p + a =~= a);
        assert(p + b =~= b);
    } else {
        assert((p + a)[0] == p[0]);
        assert((p + b)[0] == p[0]);
        assert((p + a).drop_first() =~= p.drop_first() + a);
        assert((p + b).drop_first() =~= p.drop_first() + b);
        first_difference_orders(p.drop_first(), a, b);
    }
}

} // verus!
