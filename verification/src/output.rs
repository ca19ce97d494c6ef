//! What the command that writes a starter configuration prints.
use vstd::prelude::*;

use crate::text;

verus! {

/// Notes, each as a comment on a line of its own.
pub open spec fn comments(notes: Seq<Seq<char>>) -> Seq<char>
    decreases notes.len(),
{
    if notes.len() == 0 {
        Seq::empty()
    } else {
        comments(notes.drop_last()) + "# "@ + notes.last() + "\n"@
    }
}

/// What is printed: the notes as comments, an empty line where the
/// configuration was made from that of Nginx, and the configuration.
pub open spec fn printed(notes: Seq<Seq<char>>, from_nginx: bool, sample: Seq<char>) -> Seq<char> {
    comments(notes) + if from_nginx {
        "\n"@ + sample
    } else {
        sample
    }
}

/// What is printed.
pub fn init_config_output(notes: &Vec<String>, from_nginx: bool, sample: &str) -> (r: String)
    ensures
        r@ == printed(notes.deep_view(), from_nginx, sample@),
{
    let ghost all = notes.deep_view();
    let mut r = String::new();
    let mut i: usize = 0;
    assert(all.take(0) =~= Seq::empty());
    while i < notes.len()
        invariant
            i <= notes.len(),
            all == notes.deep_view(),
            r@ == comments(all.take(i as int)),
        decreases notes.len() - i,
    {
        assert(all.take(i + 1).drop_last() =~= all.take(i as int));
        assert(all[i as int] == notes@[i as int]@);
        r.append("# ");
        r.append(notes[i].as_str());
        r.append("\n");
        i = i + 1;
    }
    assert(all.take(notes.len() as int) =~= all);
    if from_nginx {
        r.append("\n");
    }
    r.append(sample);
    assert(r@ =~= printed(all, from_nginx, sample@));
    r
}

/// A note as a comment.
pub open spec fn comment_line(note: Seq<char>) -> Seq<char> {
    "# "@ + note
}

proof fn lemma_first_line(line: Seq<char>, rest: Seq<char>)
    requires
        !line.contains('\n'),
        !text::ends(line, '\r'),
    ensures
        text::line_seq(line.push('\n') + rest) == seq![line] + text::line_seq(rest),
{
    let s = line.push('\n') + rest;
    assert forall|k: int| 0 <= k < line.len() implies s[k] != '\n' by {
        assert(s[k] == line[k]);
    }
    assert(s[line.len() as int] == '\n');
    text::lemma_position_is(s, '\n', line.len() as int);
    assert(text::head(s, '\n') =~= line);
    assert(text::tail(s, '\n') =~= rest);
}

proof fn lemma_comment_lines(notes: Seq<Seq<char>>, rest: Seq<char>)
    requires
        forall|i: int|
            0 <= i < notes.len() ==> !(#[trigger] notes[i]).contains('\n') && !text::ends(
                notes[i],
                '\r',
            ),
    ensures
        text::line_seq(comments(notes) + rest) == notes.map_values(
            |note: Seq<char>| comment_line(note),
        ) + text::line_seq(rest),
    decreases notes.len(),
{
    reveal_strlit("# ");
    reveal_strlit("\n");
    let lines = notes.map_values(|note: Seq<char>| comment_line(note));
    if notes.len() == 0 {
        assert(comments(notes) + rest =~= rest);
        assert(lines + text::line_seq(rest) =~= text::line_seq(rest));
    } else {
        let front = notes.drop_last();
        let line = comment_line(notes.last());
        let more = line.push('\n') + rest;
        assert forall|i: int| 0 <= i < front.len() implies !(#[trigger] front[i]).contains('\n')
            && !text::ends(front[i], '\r') by {
            assert(front[i] == notes[i]);
        }
        lemma_comment_lines(front, more);
        assert(comments(notes) + rest =~= comments(front) + more);
        assert(!notes[notes.len() - 1].contains('\n'));
        assert forall|k: int| 0 <= k < line.len() implies line[k] != '\n' by {
            if k >= 2 {
                assert(line[k] == notes.last()[k - 2]);
            }
        }
        assert(!text::ends(line, '\r')) by {
            if notes.last().len() > 0 {
                assert(line.last() == notes.last().last());
            } else {
                assert(line.last() == ' ');
            }
        }
        lemma_first_line(line, rest);
        let some = front.map_values(|note: Seq<char>| comment_line(note));
        assert(some + (seq![line] + text::line_seq(rest)) =~= lines + text::line_seq(rest));
    }
}

/// What is printed is, line by line, the notes as comments, and then the
/// configuration: without the comments it is a configuration file.
pub proof fn notes_are_comments(notes: Seq<Seq<char>>, from_nginx: bool, sample: Seq<char>)
    requires
        forall|i: int|
            0 <= i < notes.len() ==> !(#[trigger] notes[i]).contains('\n') && !text::ends(
                notes[i],
                '\r',
            ),
    ensures
        text::line_seq(printed(notes, from_nginx, sample)) == notes.map_values(
            |note: Seq<char>| comment_line(note),
        ) + if from_nginx {
            seq![Seq::<char>::empty()] + text::line_seq(sample)
        } else {
            text::line_seq(sample)
        },
{
    let rest = if from_nginx {
        "\n"@ + sample
    } else {
        sample
    };
    lemma_comment_lines(notes, rest);
    if from_nginx {
        let none = Seq::<char>::empty();
        reveal_strlit("\n");
        assert(rest =~= none.push('\n') + sample);
        lemma_first_line(none, sample);
    }
}

/// Every note is printed on a line that begins with `# `, in order, and the
/// sample follows as it is.
pub proof fn notes_stand_before_the_sample(
    notes: Seq<Seq<char>>,
    note: Seq<char>,
    from_nginx: bool,
    sample: Seq<char>,
)
    ensures
        printed(Seq::empty(), false, sample) == sample,
        printed(Seq::empty(), true, sample) == "\n"@ + sample,
        printed(seq![note] + notes, from_nginx, sample) == "# "@ + note + "\n"@ + printed(
            notes,
            from_nginx,
            sample,
        ),
{
    let none = Seq::<Seq<char>>::empty();
    assert(comments(none) + sample =~= sample);
    assert(comments(none) + ("\n"@ + sample) =~= "\n"@ + sample);
    lemma_first_comment(note, notes);
    let rest = if from_nginx {
        "\n"@ + sample
    } else {
        sample
    };
    assert("# "@ + note + "\n"@ + comments(notes) + rest =~= "# "@ + note + "\n"@ + (comments(notes)
        + rest));
}

proof fn lemma_first_comment(note: Seq<char>, notes: Seq<Seq<char>>)
    ensures
        comments(seq![note] + notes) == "# "@ + note + "\n"@ + comments(notes),
    decreases notes.len(),
{
    reveal_with_fuel(comments, 2);
    let all = seq![note] + notes;
    if notes.len() == 0 {
        assert(all.drop_last() =~= Seq::empty());
        assert(all.last() == note);
        assert(Seq::<char>::empty() + "# "@ + note + "\n"@ =~= "# "@ + note + "\n"@ + comments(
            notes,
        ));
    } else {
        assert(all.drop_last() =~= seq![note] + notes.drop_last());
        assert(all.last() == notes.last());
        lemma_first_comment(note, notes.drop_last());
        assert("# "@ + note + "\n"@ + comments(notes.drop_last()) + "# "@ + notes.last() + "\n"@
            =~= "# "@ + note + "\n"@ + (comments(notes.drop_last()) + "# "@ + notes.last()
            + "\n"@));
    }
}

} // verus!
