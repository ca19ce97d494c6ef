//! Files with variables for the environment of an application: a line
//! `NAME=value` for each, with empty lines and comments between them.
use vstd::prelude::*;

use crate::failure;
use crate::failure::{ErrorKind, Failure, FailureView};
use crate::text;

verus! {

/// A value without the quotes around it, if it stands in quotes.
pub open spec fn unquoted(value: Seq<char>) -> Seq<char> {
    if value.len() >= 2 && (value[0] == '"' && value.last() == '"' || value[0] == '\''
        && value.last() == '\'') {
        value.subrange(1, value.len() - 1)
    } else {
        value
    }
}

/// A value without the quotes around it, if it stands in quotes.
pub fn unquote_env_value<'a>(value: &'a str) -> (r: &'a str)
    ensures
        r@ == unquoted(value@),
{
    let v = text::chars_of(value);
    let n = v.len();
    if n >= 2 && (v[0] == '"' && v[n - 1] == '"' || v[0] == '\'' && v[n - 1] == '\'') {
        value.substring_char(1, n - 1)
    } else {
        value
    }
}

/// What a line says: a variable and its value, nothing, or why it cannot be
/// read. `path` is the file that the line is from.
pub open spec fn env_line(path: Seq<char>, line: Seq<char>) -> Result<
    Option<(Seq<char>, Seq<char>)>,
    FailureView,
> {
    let t = text::trimmed(line);
    let key = text::trimmed(text::head(t, '='));
    if t.len() == 0 || t[0] == '#' {
        Ok(None)
    } else if !t.contains('=') {
        Err(
            FailureView {
                kind: ErrorKind::InvalidInput,
                message: "invalid env line in "@ + path + ": "@ + t,
            },
        )
    } else if key.len() == 0 {
        Err(
            FailureView {
                kind: ErrorKind::InvalidInput,
                message: "empty env key in "@ + path,
            },
        )
    } else {
        Ok(Some((key, unquoted(text::trimmed(text::tail(t, '='))))))
    }
}

/// What all lines say, or why the first line that cannot be read cannot.
pub open spec fn env_lines(path: Seq<char>, lines: Seq<Seq<char>>) -> Result<
    Seq<(Seq<char>, Seq<char>)>,
    FailureView,
>
    decreases lines.len(),
{
    if lines.len() == 0 {
        Ok(Seq::empty())
    } else {
        match env_lines(path, lines.drop_last()) {
            Err(failure) => Err(failure),
            Ok(front) => match env_line(path, lines.last()) {
                Err(failure) => Err(failure),
                Ok(None) => Ok(front),
                Ok(Some(pair)) => Ok(front.push(pair)),
            },
        }
    }
}

fn read_line(path: &str, line: &str) -> (r: Result<Option<(String, String)>, Failure>)
    ensures
        failure::outcome(r) == env_line(path@, line@),
{
    let line = text::trim(line);
    let v = text::chars_of(line);
    if v.len() == 0 || v[0] == '#' {
        return Ok(None);
    }
    match text::split_once(line, '=') {
        None => {
            let mut message = text::concat("invalid env line in ", path);
            message.append(": ");
            message.append(line);
            Err(Failure::new(ErrorKind::InvalidInput, message))
        },
        Some((key, value)) => {
            let key = text::trim(key);
            if text::chars_of(key).len() == 0 {
                Err(
                    Failure::new(
                        ErrorKind::InvalidInput,
                        text::concat("empty env key in ", path),
                    ),
                )
            } else {
                let value = unquote_env_value(text::trim(value));
                Ok(Some((key.to_owned(), value.to_owned())))
            }
        },
    }
}

/// The variables in the text of a file, in order. `path` is the file that the
/// text is from.
pub fn read_env_file(path: &str, contents: &str) -> (r: Result<Vec<(String, String)>, Failure>)
    ensures
        failure::outcome(r) == env_lines(path@, text::line_seq(contents@)),
{
    let lines = text::lines(contents);
    let ghost all = lines.deep_view();
    let mut values: Vec<(String, String)> = Vec::new();
    let mut i: usize = 0;
    assert(all.take(0) =~= Seq::empty());
    assert(values.deep_view() =~= Seq::empty());
    while i < lines.len()
        invariant
            i <= lines.len(),
            all == lines.deep_view(),
            all == text::line_seq(contents@),
            env_lines(path@, all.take(i as int)) == Ok::<_, FailureView>(values.deep_view()),
        decreases lines.len() - i,
    {
        let ghost before = values.deep_view();
        proof {
            assert(all.take(i + 1).drop_last() =~= all.take(i as int));
            assert(all[i as int] == lines@[i as int]@);
        }
        match read_line(path, lines[i].as_str()) {
            Ok(Some(pair)) => {
                let ghost new = pair.deep_view();
                values.push(pair);
                assert(values.deep_view() =~= before.push(new));
            },
            Ok(None) => {},
            Err(failure) => {
                proof {
                    lemma_failure_stays(path@, all, i + 1);
                }
                return Err(failure);
            },
        }
        i = i + 1;
    }
    assert(all.take(lines.len() as int) =~= all);
    Ok(values)
}

proof fn lemma_failure_stays(path: Seq<char>, lines: Seq<Seq<char>>, n: int)
    requires
        0 <= n <= lines.len(),
        env_lines(path, lines.take(n)) is Err,
    ensures
        env_lines(path, lines) == env_lines(path, lines.take(n)),
    decreases lines.len(),
{
    if n == lines.len() {
        assert(lines.take(n) =~= lines);
    } else {
        assert(lines.drop_last().take(n) =~= lines.take(n));
        lemma_failure_stays(path, lines.drop_last(), n);
    }
}

/// A text that neither begins nor ends with white space is left as it is when
/// it is trimmed.
proof fn lemma_trimmed_stays(s: Seq<char>)
    requires
        s.len() > 0,
        !text::white(s[0]),
        !text::white(s.last()),
    ensures
        text::trimmed(s) == s,
{
}

/// A value in quotes is read as it is, with white space and quotes in it.
pub proof fn quoted_value_is_kept(path: Seq<char>, key: Seq<char>, value: Seq<char>, mark: char)
    requires
        mark == '"' || mark == '\'',
        key.len() > 0,
        key[0] != '#',
        !key.contains('='),
        !text::white(key[0]),
        !text::white(key.last()),
    ensures
        env_line(path, key.push('=').push(mark) + value.push(mark)) == Ok::<
            Option<(Seq<char>, Seq<char>)>,
            FailureView,
        >(Some((key, value))),
{
    reveal_strlit("=");
    let none = Seq::<char>::empty();
    let quoted = seq![mark] + value.push(mark);
    lemma_value_is_read(path, key, quoted, none, none, none, none);
    assert(none + key + none + "="@ + none + quoted + none =~= key.push('=').push(mark)
        + value.push(mark));
    assert(quoted.subrange(1, quoted.len() - 1) =~= value);
}

/// A value that does not stand in quotes is read as it is, with spaces and signs
/// in it; it may be empty.
pub proof fn plain_value_is_kept(path: Seq<char>, key: Seq<char>, value: Seq<char>)
    requires
        key.len() > 0,
        key[0] != '#',
        !key.contains('='),
        !text::white(key[0]),
        !text::white(key.last()),
        value.len() > 0 ==> !text::white(value[0]) && !text::white(value.last()),
        value.len() >= 2 && value[0] == value.last() ==> value[0] != '"' && value[0] != '\'',
    ensures
        env_line(path, key + "="@ + value) == Ok::<Option<(Seq<char>, Seq<char>)>, FailureView>(
            Some((key, value)),
        ),
{
    let none = Seq::<char>::empty();
    lemma_value_is_read(path, key, value, none, none, none, none);
    assert(none + key + none + "="@ + none + value + none =~= key + "="@ + value);
}

/// White space around a line, and around the name and the value in it, does not
/// count.
pub proof fn white_space_around_is_dropped(
    path: Seq<char>,
    key: Seq<char>,
    value: Seq<char>,
    white: Seq<Seq<char>>,
)
    requires
        key.len() > 0,
        key[0] != '#',
        !key.contains('='),
        !text::white(key[0]),
        !text::white(key.last()),
        value.len() > 0 ==> !text::white(value[0]) && !text::white(value.last()),
        white.len() == 4,
        forall|i: int, k: int|
            0 <= i < 4 && 0 <= k < white[i].len() ==> text::white(#[trigger] white[i][k]),
    ensures
        env_line(path, white[0] + key + white[1] + "="@ + white[2] + value + white[3]) == env_line(
            path,
            key + "="@ + value,
        ),
{
    let none = Seq::<char>::empty();
    lemma_value_is_read(path, key, value, none, none, none, none);
    assert(none + key + none + "="@ + none + value + none =~= key + "="@ + value);
    lemma_value_is_read(path, key, value, white[0], white[1], white[2], white[3]);
}

proof fn lemma_value_is_read(
    path: Seq<char>,
    key: Seq<char>,
    value: Seq<char>,
    a: Seq<char>,
    b: Seq<char>,
    c: Seq<char>,
    d: Seq<char>,
)
    requires
        key.len() > 0,
        key[0] != '#',
        !key.contains('='),
        !text::white(key[0]),
        !text::white(key.last()),
        value.len() > 0 ==> !text::white(value[0]) && !text::white(value.last()),
        forall|k: int| 0 <= k < a.len() ==> text::white(#[trigger] a[k]),
        forall|k: int| 0 <= k < b.len() ==> text::white(#[trigger] b[k]),
        forall|k: int| 0 <= k < c.len() ==> text::white(#[trigger] c[k]),
        forall|k: int| 0 <= k < d.len() ==> text::white(#[trigger] d[k]),
    ensures
        env_line(path, a + key + b + "="@ + c + value + d) == Ok::<
            Option<(Seq<char>, Seq<char>)>,
            FailureView,
        >(Some((key, unquoted(value)))),
{
    reveal_strlit("=");
    let line = a + key + b + "="@ + c + value + d;
    let none = Seq::<char>::empty();
    let (inner, last) = if value.len() == 0 {
        (key + b + "="@, c + d)
    } else {
        (key + b + "="@ + c + value, d)
    };
    assert(line =~= a + inner + last);
    assert(inner[0] == key[0]);
    assert(inner.last() == if value.len() == 0 {
        '='
    } else {
        value.last()
    });
    text::trimming_takes_the_ends(a, inner, last);
    let front = key + b;
    let rest = inner.skip(front.len() as int + 1);
    assert(inner =~= front.push('=') + rest);
    assert(!front.contains('=')) by {
        assert forall|k: int| 0 <= k < front.len() implies front[k] != '=' by {
            if k < key.len() {
                assert(key.contains(key[k]));
            } else {
                assert(front[k] == b[k - key.len()]);
            }
        }
    }
    text::cut_is_at_the_character(front, '=', rest);
    assert(inner[front.len() as int] == '=');
    assert(none + key + b =~= front);
    text::trimming_takes_the_ends(none, key, b);
    if value.len() == 0 {
        assert(rest =~= none + value + none);
        text::trimming_takes_the_ends(none, value, none);
    } else if c.len() == 0 {
        assert(rest =~= value);
        lemma_trimmed_stays(value);
    } else {
        assert(rest =~= c + value + none);
        text::trimming_takes_the_ends(c, value, none);
    }
}

/// An empty line and a comment say nothing, whatever white space stands around
/// them.
pub proof fn comment_says_nothing(path: Seq<char>, white: Seq<char>, comment: Seq<char>)
    requires
        forall|k: int| 0 <= k < white.len() ==> text::white(#[trigger] white[k]),
    ensures
        env_line(path, white) == Ok::<Option<(Seq<char>, Seq<char>)>, FailureView>(None),
        env_line(path, white + "#"@ + comment) == Ok::<
            Option<(Seq<char>, Seq<char>)>,
            FailureView,
        >(None),
{
    reveal_strlit("#");
    let none = Seq::<char>::empty();
    assert(none + none + white =~= white);
    text::trimming_takes_the_ends(none, none, white);
    let line = "#"@ + comment;
    let (m, b) = lemma_white_ends(line);
    assert(m[0] == line[0]);
    assert(white + "#"@ + comment =~= white + line);
    assert(white + (m + b) =~= white + m + b);
    text::trimming_takes_the_ends(white, m, b);
}

/// A text is a part that does not end with white space, and white space.
proof fn lemma_white_ends(s: Seq<char>) -> (r: (Seq<char>, Seq<char>))
    ensures
        s == r.0 + r.1,
        forall|k: int| 0 <= k < r.1.len() ==> text::white(#[trigger] r.1[k]),
        r.0.len() > 0 ==> !text::white(r.0.last()),
        s.len() > 0 && !text::white(s[0]) ==> r.0.len() > 0,
    decreases s.len(),
{
    if s.len() > 0 && text::white(s.last()) {
        let (m, b) = lemma_white_ends(s.drop_last());
        assert(s =~= s.drop_last().push(s.last()));
        assert((m + b).push(s.last()) =~= m + b.push(s.last()));
        if !text::white(s[0]) {
            assert(s.drop_last()[0] == s[0]);
        }
        (m, b.push(s.last()))
    } else {
        assert(s =~= s + Seq::<char>::empty());
        (s, Seq::empty())
    }
}

/// A line that is no comment is refused where it has no sign of equality, and
/// where no name stands in front of the first one, whatever stands behind it.
pub proof fn line_without_a_name_is_refused(
    path: Seq<char>,
    line: Seq<char>,
    rest: Seq<char>,
    white: Seq<char>,
    behind: Seq<char>,
)
    requires
        line.len() > 0,
        line[0] != '#',
        !text::white(line[0]),
        !text::white(line.last()),
        !line.contains('='),
        forall|k: int| 0 <= k < white.len() ==> text::white(#[trigger] white[k]),
        forall|k: int| 0 <= k < behind.len() ==> text::white(#[trigger] behind[k]),
    ensures
        env_line(path, white + line + behind) == Err::<
            Option<(Seq<char>, Seq<char>)>,
            FailureView,
        >(
            FailureView {
                kind: ErrorKind::InvalidInput,
                message: "invalid env line in "@ + path + ": "@ + line,
            },
        ),
        env_line(path, white + "="@ + rest) == Err::<Option<(Seq<char>, Seq<char>)>, FailureView>(
            FailureView {
                kind: ErrorKind::InvalidInput,
                message: "empty env key in "@ + path,
            },
        ),
{
    reveal_strlit("=");
    let none = Seq::<char>::empty();
    text::trimming_takes_the_ends(white, line, behind);
    let second = "="@ + rest;
    let (m, b) = lemma_white_ends(second);
    assert(m[0] == second[0]);
    assert(m.contains('='));
    assert(white + "="@ + rest =~= white + second);
    assert(white + (m + b) =~= white + m + b);
    text::trimming_takes_the_ends(white, m, b);
    assert(m =~= none.push('=') + m.drop_first());
    text::cut_is_at_the_character(none, '=', m.drop_first());
    text::trimming_takes_the_ends(none, none, none);
    assert(none + none + none =~= none);
}

/// A file is read line by line: the variables come in the order of the lines,
/// and the first line that cannot be read decides.
pub proof fn lines_are_read_in_order(path: Seq<char>, a: Seq<Seq<char>>, b: Seq<Seq<char>>)
    ensures
        env_lines(path, a + b) == match (env_lines(path, a), env_lines(path, b)) {
            (Ok(front), Ok(behind)) => Ok::<Seq<(Seq<char>, Seq<char>)>, FailureView>(
                front + behind,
            ),
            (Err(failure), _) => Err(failure),
            (_, Err(failure)) => Err(failure),
        },
        a.len() == 0 ==> env_lines(path, a) == Ok::<Seq<(Seq<char>, Seq<char>)>, FailureView>(
            Seq::empty(),
        ),
        a.len() == 1 ==> env_lines(path, a) == match env_line(path, a[0]) {
            Ok(Some(pair)) => Ok::<Seq<(Seq<char>, Seq<char>)>, FailureView>(seq![pair]),
            Ok(None) => Ok(Seq::empty()),
            Err(failure) => Err(failure),
        },
    decreases b.len(),
{
    reveal_with_fuel(env_lines, 2);
    if a.len() == 1 {
        assert(a.drop_last() =~= Seq::empty());
    }
    if b.len() == 0 {
        assert(a + b =~= a);
        if env_lines(path, a) is Ok {
            let front = env_lines(path, a)->Ok_0;
            assert(front + Seq::<(Seq<char>, Seq<char>)>::empty() =~= front);
        }
    } else {
        lines_are_read_in_order(path, a, b.drop_last());
        assert((a + b).drop_last() =~= a + b.drop_last());
        assert((a + b).last() == b.last());
        if env_lines(path, a) is Ok && env_lines(path, b.drop_last()) is Ok {
            let front = env_lines(path, a)->Ok_0;
            let behind = env_lines(path, b.drop_last())->Ok_0;
            if env_line(path, b.last()) is Ok && env_line(path, b.last())->Ok_0 is Some {
                let pair = env_line(path, b.last())->Ok_0->Some_0;
                assert((front + behind).push(pair) =~= front + behind.push(pair));
            }
        }
    }
}

} // verus!
