//! Templates: the launch command, the health address and the proxy host are
//! texts with placeholders for the deployment at hand.
use vstd::prelude::*;

use crate::number;
use crate::text;

verus! {

/// What the placeholders of a template stand for.
#[derive(Clone, Copy, Debug)]
pub struct RenderContext<'a> {
    pub artifact: &'a str,
    pub port: u16,
    pub slot: &'a str,
    pub release: &'a str,
}

/// `value` as one word of a shell command: in single quotes, each single quote
/// in it closed, escaped and opened again.
pub open spec fn quoted(value: Seq<char>) -> Seq<char> {
    "'"@ + text::replaced(value, "'"@, "'\\''"@) + "'"@
}

/// `value` as one word of a shell command.
pub fn shell_quote(value: &str) -> (r: String)
    ensures
        r@ == quoted(value@),
{
    proof {
        reveal_strlit("'");
    }
    let mut r = "'".to_owned();
    let inner = text::replace(value, "'", "'\\''");
    r.append(inner.as_str());
    r.append("'");
    r
}

// ---------------------------------------------------------------------------
// Filling in placeholders
// ---------------------------------------------------------------------------

/// The first of `pairs` whose placeholder `t` begins with, or -1.
pub open spec fn hit(t: Seq<char>, pairs: Seq<(Seq<char>, Seq<char>)>) -> int
    decreases pairs.len(),
{
    if pairs.len() == 0 {
        -1
    } else {
        let earlier = hit(t, pairs.drop_last());
        if earlier >= 0 {
            earlier
        } else if pairs.last().0.len() > 0 && text::starts(t, pairs.last().0) {
            pairs.len() - 1
        } else {
            -1
        }
    }
}

/// `t` with the placeholder of each of `pairs` replaced by its value, all in
/// one pass from left to right: what a value holds is not looked at again.
pub open spec fn filled(t: Seq<char>, pairs: Seq<(Seq<char>, Seq<char>)>) -> Seq<char>
    decreases t.len(),
{
    proof {
        lemma_hit(t, pairs);
    }
    if t.len() == 0 {
        t
    } else {
        let h = hit(t, pairs);
        if h >= 0 {
            pairs[h].1 + filled(t.skip(pairs[h].0.len() as int), pairs)
        } else {
            seq![t[0]] + filled(t.drop_first(), pairs)
        }
    }
}

pub proof fn lemma_hit(t: Seq<char>, pairs: Seq<(Seq<char>, Seq<char>)>)
    ensures
        -1 <= hit(t, pairs) < pairs.len(),
        hit(t, pairs) >= 0 ==> {
            &&& pairs[hit(t, pairs)].0.len() > 0
            &&& text::starts(t, pairs[hit(t, pairs)].0)
        },
    decreases pairs.len(),
{
    if pairs.len() > 0 {
        lemma_hit(t, pairs.drop_last());
    }
}

proof fn lemma_hit_stays(t: Seq<char>, pairs: Seq<(Seq<char>, Seq<char>)>, n: int)
    requires
        0 <= n <= pairs.len(),
        hit(t, pairs.take(n)) >= 0,
    ensures
        hit(t, pairs) == hit(t, pairs.take(n)),
    decreases pairs.len(),
{
    if n == pairs.len() {
        assert(pairs.take(n) =~= pairs);
    } else {
        assert(pairs.drop_last().take(n) =~= pairs.take(n));
        lemma_hit_stays(t, pairs.drop_last(), n);
    }
}

/// What the placeholders of a template stand for. The two paths are quoted for
/// the shell.
pub open spec fn values(
    artifact: Seq<char>,
    release: Seq<char>,
    port: u16,
    slot: Seq<char>,
) -> Seq<(Seq<char>, Seq<char>)> {
    seq![
        ("{artifact}"@, quoted(artifact)),
        ("{release}"@, quoted(release)),
        ("{port}"@, number::decimal(port as nat)),
        ("{slot}"@, slot),
    ]
}

/// `template` with its placeholders filled in.
pub open spec fn rendered(
    template: Seq<char>,
    artifact: Seq<char>,
    release: Seq<char>,
    port: u16,
    slot: Seq<char>,
) -> Seq<char> {
    filled(template, values(artifact, release, port, slot))
}

fn find_hit(v: &Vec<char>, i: usize, pairs: &Vec<(String, String)>) -> (r: Option<usize>)
    requires
        i <= v.len(),
    ensures
        match r {
            Some(h) => h < pairs.len() && h == hit(v@.skip(i as int), pairs.deep_view()),
            None => hit(v@.skip(i as int), pairs.deep_view()) == -1,
        },
{
    let ghost all = pairs.deep_view();
    let ghost t = v@.skip(i as int);
    let mut k: usize = 0;
    assert(all.take(0) =~= Seq::empty());
    while k < pairs.len()
        invariant
            k <= pairs.len(),
            i <= v.len(),
            all == pairs.deep_view(),
            t == v@.skip(i as int),
            hit(t, all.take(k as int)) == -1,
        decreases pairs.len() - k,
    {
        let p = text::chars_of(pairs[k].0.as_str());
        proof {
            assert(all[k as int] == pairs@[k as int].deep_view());
            assert(all.take(k + 1).drop_last() =~= all.take(k as int));
            assert(all.take(k + 1).last() == all[k as int]);
            assert(i + p@.len() <= v@.len() ==> t.take(p@.len() as int) =~= v@.subrange(
                i as int,
                i + p@.len(),
            ));
        }
        if p.len() > 0 && text::occurs_at(v, &p, i) {
            proof {
                lemma_hit_stays(t, all, k + 1);
            }
            return Some(k);
        }
        k = k + 1;
    }
    assert(all.take(pairs.len() as int) =~= all);
    None
}

fn fill(template: &str, pairs: &Vec<(String, String)>) -> (r: String)
    ensures
        r@ == filled(template@, pairs.deep_view()),
{
    let ghost all = pairs.deep_view();
    let v = text::chars_of(template);
    let mut r = String::new();
    let mut i: usize = 0;
    assert(v@.skip(0) =~= template@);
    assert(filled(template@, all) =~= r@ + filled(v@.skip(0), all));
    while i < v.len()
        invariant
            i <= v.len(),
            all == pairs.deep_view(),
            filled(template@, all) == r@ + filled(v@.skip(i as int), all),
        decreases v.len() - i,
    {
        let ghost rest = v@.skip(i as int);
        let ghost done = r@;
        proof {
            lemma_hit(rest, all);
        }
        match find_hit(&v, i, pairs) {
            Some(h) => {
                let p = text::chars_of(pairs[h].0.as_str());
                assert(all[h as int] == pairs@[h as int].deep_view());
                assert(rest.skip(p@.len() as int) =~= v@.skip(i + p@.len()));
                r.append(pairs[h].1.as_str());
                i = i + p.len();
            },
            None => {
                assert(rest.drop_first() =~= v@.skip(i + 1));
                r.push(v[i]);
                i = i + 1;
            },
        }
        assert(done + filled(rest, all) =~= r@ + filled(v@.skip(i as int), all));
    }
    assert(r@ + filled(v@.skip(i as int), all) =~= r@);
    r
}

/// `template` with its placeholders filled in from `context`, in one pass: what
/// a value holds is not looked at again.
pub fn render_template(template: &str, context: &RenderContext<'_>) -> (r: String)
    ensures
        r@ == filled(
            template@,
            seq![
                ("{artifact}"@, quoted(context.artifact@)),
                ("{release}"@, quoted(context.release@)),
                ("{port}"@, number::decimal(context.port as nat)),
                ("{slot}"@, context.slot@),
            ],
        ),
{
    let mut pairs: Vec<(String, String)> = Vec::new();
    pairs.push(("{artifact}".to_owned(), shell_quote(context.artifact)));
    pairs.push(("{release}".to_owned(), shell_quote(context.release)));
    pairs.push(("{port}".to_owned(), number::write_number(context.port as u64)));
    pairs.push(("{slot}".to_owned(), context.slot.to_owned()));
    assert(pairs.deep_view() =~= values(
        context.artifact@,
        context.release@,
        context.port,
        context.slot@,
    ));
    fill(template, &pairs)
}

// ---------------------------------------------------------------------------
// Quoting, as the shell reads it
// ---------------------------------------------------------------------------

/// What a shell makes of the text `s`, where `inside` says whether it stands
/// inside single quotes: inside, every character up to the next single quote
/// stands for itself; outside, a backslash makes the next character stand for
/// itself. `None` where a quote or an escape is left open, or where a character
/// is neither quoted nor escaped.
pub open spec fn shell_reads(s: Seq<char>, inside: bool) -> Option<Seq<char>>
    decreases s.len(),
{
    if s.len() == 0 {
        if inside {
            None
        } else {
            Some(Seq::empty())
        }
    } else if inside {
        if s[0] == '\'' {
            shell_reads(s.drop_first(), false)
        } else {
            match shell_reads(s.drop_first(), true) {
                Some(rest) => Some(seq![s[0]] + rest),
                None => None,
            }
        }
    } else if s[0] == '\'' {
        shell_reads(s.drop_first(), true)
    } else if s[0] == '\\' {
        if s.len() == 1 {
            None
        } else {
            match shell_reads(s.skip(2), false) {
                Some(rest) => Some(seq![s[1]] + rest),
                None => None,
            }
        }
    } else {
        None
    }
}

proof fn lemma_shell_reads_inner(value: Seq<char>)
    ensures
        shell_reads(text::replaced(value, "'"@, "'\\''"@) + "'"@, true) == Some(value),
    decreases value.len(),
{
    reveal_strlit("'");
    reveal_strlit("'\\''");
    let inner = text::replaced(value, "'"@, "'\\''"@);
    let all = inner + "'"@;
    if value.len() == 0 {
        assert(all =~= seq!['\'']);
        assert(all.drop_first() =~= Seq::empty());
        assert(shell_reads(all.drop_first(), false) == Some(Seq::<char>::empty()));
        assert(value =~= Seq::empty());
    } else {
        let rest = value.drop_first();
        let rest_all = text::replaced(rest, "'"@, "'\\''"@) + "'"@;
        lemma_shell_reads_inner(rest);
        assert(value =~= seq![value[0]] + rest);
        if value[0] == '\'' {
            assert(value.take(1) =~= "'"@);
            assert(value.skip(1) =~= rest);
            assert(all =~= "'\\''"@ + rest_all);
            let b = all.drop_first();
            assert(b.skip(2) =~= seq!['\''] + rest_all);
            let c = b.skip(2);
            assert(c.drop_first() =~= rest_all);
            assert(shell_reads(c, false) == shell_reads(rest_all, true));
            assert(shell_reads(b, false) == Some(seq!['\''] + rest));
        } else {
            assert(value.take(1)[0] != "'"@[0]);
            assert(all =~= seq![value[0]] + rest_all);
            assert(all.drop_first() =~= rest_all);
        }
    }
}

/// A shell reads a quoted text as one word, and that word is the text itself,
/// whatever characters it holds.
pub proof fn shell_reads_back_quoted(value: Seq<char>)
    ensures
        shell_reads(quoted(value), false) == Some(value),
{
    reveal_strlit("'");
    lemma_shell_reads_inner(value);
    let inner = text::replaced(value, "'"@, "'\\''"@) + "'"@;
    assert(quoted(value) =~= seq!['\''] + inner);
    assert(quoted(value).drop_first() =~= inner);
}

// ---------------------------------------------------------------------------
// What holds of a filled template
// ---------------------------------------------------------------------------

/// Whether `p` is a placeholder: a brace, and no other opening brace in it.
spec fn is_placeholder(p: Seq<char>) -> bool {
    &&& p.len() > 0
    &&& p[0] == '{'
    &&& forall|k: int| 1 <= k < p.len() ==> p[k] != '{'
}

proof fn lemma_starts_alone(t: Seq<char>, more: Seq<char>, p: Seq<char>)
    requires
        t.len() > 0,
        more.len() > 0,
        more[0] == '{',
        is_placeholder(p),
    ensures
        text::starts(t + more, p) == text::starts(t, p),
{
    let all = t + more;
    if p.len() <= t.len() {
        assert(all.take(p.len() as int) =~= t.take(p.len() as int));
    } else if text::starts(all, p) {
        assert(all.take(p.len() as int)[t.len() as int] == '{');
    }
}

proof fn lemma_hit_alone(t: Seq<char>, more: Seq<char>, pairs: Seq<(Seq<char>, Seq<char>)>)
    requires
        t.len() > 0,
        more.len() > 0,
        more[0] == '{',
        forall|k: int| 0 <= k < pairs.len() ==> is_placeholder(#[trigger] pairs[k].0),
    ensures
        hit(t + more, pairs) == hit(t, pairs),
    decreases pairs.len(),
{
    if pairs.len() > 0 {
        let front = pairs.drop_last();
        assert forall|k: int| 0 <= k < front.len() implies is_placeholder(
            #[trigger] front[k].0,
        ) by {
            assert(front[k] == pairs[k]);
        }
        lemma_hit_alone(t, more, front);
        assert(is_placeholder(pairs[pairs.len() - 1].0));
        lemma_starts_alone(t, more, pairs.last().0);
    }
}

proof fn lemma_filled_apart(t: Seq<char>, more: Seq<char>, pairs: Seq<(Seq<char>, Seq<char>)>)
    requires
        more.len() > 0,
        more[0] == '{',
        forall|k: int| 0 <= k < pairs.len() ==> is_placeholder(#[trigger] pairs[k].0),
    ensures
        filled(t + more, pairs) == filled(t, pairs) + filled(more, pairs),
    decreases t.len(),
{
    let all = t + more;
    if t.len() == 0 {
        assert(all =~= more);
        assert(filled(t, pairs) + filled(more, pairs) =~= filled(more, pairs));
    } else {
        lemma_hit_alone(t, more, pairs);
        lemma_hit(t, pairs);
        let h = hit(t, pairs);
        let n = if h >= 0 {
            pairs[h].0.len() as int
        } else {
            1
        };
        assert(all.skip(n) =~= t.skip(n) + more);
        assert(all.drop_first() =~= all.skip(1));
        assert(t.drop_first() =~= t.skip(1));
        lemma_filled_apart(t.skip(n), more, pairs);
        assert(filled(all, pairs) =~= filled(t, pairs) + filled(more, pairs));
    }
}

proof fn lemma_values(artifact: Seq<char>, release: Seq<char>, port: u16, slot: Seq<char>, k: int)
    requires
        0 <= k < 4,
    ensures
        is_placeholder(values(artifact, release, port, slot)[k].0),
        forall|behind: Seq<char>|
            hit(
                #[trigger] (values(artifact, release, port, slot)[k].0 + behind),
                values(artifact, release, port, slot),
            ) == k,
{
    reveal_strlit("{artifact}");
    reveal_strlit("{release}");
    reveal_strlit("{port}");
    reveal_strlit("{slot}");
    let pairs = values(artifact, release, port, slot);
    let p = pairs[k].0;
    assert forall|behind: Seq<char>| hit(#[trigger] (p + behind), pairs) == k by {
        let t = p + behind;
        assert(t.take(p.len() as int) =~= p);
        assert(t[1] == p[1]);
        reveal_with_fuel(hit, 5);
        let one = pairs.take(1);
        let two = pairs.take(2);
        let three = pairs.take(3);
        assert(pairs.drop_last() =~= three);
        assert(three.drop_last() =~= two);
        assert(two.drop_last() =~= one);
        assert(one.drop_last() =~= Seq::empty());
        assert forall|j: int| 0 <= j < 4 && j != k implies !text::starts(
            t,
            #[trigger] pairs[j].0,
        ) by {
            if text::starts(t, pairs[j].0) {
                assert(t.take(pairs[j].0.len() as int)[1] == pairs[j].0[1]);
            }
        }
        assert(one.last() == pairs[0]);
        assert(two.last() == pairs[1]);
        assert(three.last() == pairs[2]);
        assert(text::starts(t, p));
    }
}

/// Each placeholder stands for its value and for nothing else, wherever it
/// stands in a template and whatever the values hold: what is in front of it and
/// what is behind it are filled in as if they stood alone.
pub proof fn placeholders_are_independent(
    before: Seq<char>,
    behind: Seq<char>,
    k: int,
    artifact: Seq<char>,
    release: Seq<char>,
    port: u16,
    slot: Seq<char>,
)
    requires
        0 <= k < 4,
    ensures
        ({
            let (placeholder, value) = values(artifact, release, port, slot)[k];
            rendered(before + placeholder + behind, artifact, release, port, slot) == rendered(
                before,
                artifact,
                release,
                port,
                slot,
            ) + value + rendered(behind, artifact, release, port, slot)
        }),
{
    let pairs = values(artifact, release, port, slot);
    let p = pairs[k].0;
    let more = p + behind;
    assert forall|j: int| 0 <= j < pairs.len() implies is_placeholder(#[trigger] pairs[j].0) by {
        lemma_values(artifact, release, port, slot, j);
    }
    lemma_values(artifact, release, port, slot, k);
    assert(is_placeholder(p));
    assert(more.skip(p.len() as int) =~= behind);
    assert(before + p + behind =~= before + more);
    lemma_filled_apart(before, more, pairs);
    assert(hit(more, pairs) == k);
    assert(filled(before, pairs) + (pairs[k].1 + filled(behind, pairs)) =~= filled(before, pairs)
        + pairs[k].1 + filled(behind, pairs));
}

proof fn lemma_hit_brace(t: Seq<char>, pairs: Seq<(Seq<char>, Seq<char>)>)
    requires
        forall|k: int| 0 <= k < pairs.len() ==> is_placeholder(#[trigger] pairs[k].0),
        t.len() > 0,
        t[0] != '{',
    ensures
        hit(t, pairs) == -1,
{
    lemma_hit(t, pairs);
    let h = hit(t, pairs);
    if h >= 0 {
        assert(is_placeholder(pairs[h].0));
        assert(t.take(pairs[h].0.len() as int)[0] == t[0]);
    }
}

/// A text without an opening brace is kept as it is.
pub proof fn plain_text_is_kept(
    template: Seq<char>,
    artifact: Seq<char>,
    release: Seq<char>,
    port: u16,
    slot: Seq<char>,
)
    requires
        !template.contains('{'),
    ensures
        rendered(template, artifact, release, port, slot) == template,
    decreases template.len(),
{
    if template.len() > 0 {
        let pairs = values(artifact, release, port, slot);
        assert forall|j: int| 0 <= j < pairs.len() implies is_placeholder(
            #[trigger] pairs[j].0,
        ) by {
            lemma_values(artifact, release, port, slot, j);
        }
        let rest = template.drop_first();
        assert(template.contains(template[0]));
        lemma_hit_brace(template, pairs);
        assert(!rest.contains('{')) by {
            if rest.contains('{') {
                let j = choose|j: int| 0 <= j < rest.len() && rest[j] == '{';
                assert(template[j + 1] == '{');
            }
        }
        plain_text_is_kept(rest, artifact, release, port, slot);
        assert(seq![template[0]] + rest =~= template);
    }
}

/// Each placeholder is filled in with what it names: the artifact and the
/// release as words of a shell command, the port and the slot as they are.
pub proof fn placeholders_stand_for_their_values(
    before: Seq<char>,
    behind: Seq<char>,
    artifact: Seq<char>,
    release: Seq<char>,
    port: u16,
    slot: Seq<char>,
)
    ensures
        rendered(before + "{artifact}"@ + behind, artifact, release, port, slot) == rendered(
            before,
            artifact,
            release,
            port,
            slot,
        ) + quoted(artifact) + rendered(behind, artifact, release, port, slot),
        rendered(before + "{release}"@ + behind, artifact, release, port, slot) == rendered(
            before,
            artifact,
            release,
            port,
            slot,
        ) + quoted(release) + rendered(behind, artifact, release, port, slot),
        rendered(before + "{port}"@ + behind, artifact, release, port, slot) == rendered(
            before,
            artifact,
            release,
            port,
            slot,
        ) + number::decimal(port as nat) + rendered(behind, artifact, release, port, slot),
        rendered(before + "{slot}"@ + behind, artifact, release, port, slot) == rendered(
            before,
            artifact,
            release,
            port,
            slot,
        ) + slot + rendered(behind, artifact, release, port, slot),
{
    placeholders_are_independent(before, behind, 0, artifact, release, port, slot);
    placeholders_are_independent(before, behind, 1, artifact, release, port, slot);
    placeholders_are_independent(before, behind, 2, artifact, release, port, slot);
    placeholders_are_independent(before, behind, 3, artifact, release, port, slot);
}

/// A brace that begins no placeholder is kept as it is.
pub proof fn other_braces_are_kept(
    before: Seq<char>,
    behind: Seq<char>,
    artifact: Seq<char>,
    release: Seq<char>,
    port: u16,
    slot: Seq<char>,
)
    requires
        !text::starts("{"@ + behind, "{artifact}"@),
        !text::starts("{"@ + behind, "{release}"@),
        !text::starts("{"@ + behind, "{port}"@),
        !text::starts("{"@ + behind, "{slot}"@),
    ensures
        rendered(before + "{"@ + behind, artifact, release, port, slot) == rendered(
            before,
            artifact,
            release,
            port,
            slot,
        ) + "{"@ + rendered(behind, artifact, release, port, slot),
{
    reveal_strlit("{");
    let pairs = values(artifact, release, port, slot);
    let more = "{"@ + behind;
    assert forall|j: int| 0 <= j < pairs.len() implies is_placeholder(#[trigger] pairs[j].0) by {
        lemma_values(artifact, release, port, slot, j);
    }
    assert(before + "{"@ + behind =~= before + more);
    lemma_filled_apart(before, more, pairs);
    lemma_hit(more, pairs);
    assert(more.drop_first() =~= behind);
    assert(filled(before, pairs) + (seq![more[0]] + filled(behind, pairs)) =~= filled(before, pairs)
        + "{"@ + filled(behind, pairs));
}

} // verus!
