//! The deployment semaphore: a file that one deployment creates and holds, so
//! that only one runs at a time.
use vstd::prelude::*;

use crate::failure::{ErrorKind, Failure, FailureView};
use crate::number;
use crate::switch;
use crate::switch::{Disk, FileStep, StepView};
use crate::text;

verus! {

// ---------------------------------------------------------------------------
// What the file says
// ---------------------------------------------------------------------------

/// What a holder writes into the file.
pub open spec fn lock_text(pid: nat) -> Seq<char> {
    "pid="@ + number::decimal(pid) + "\n"@
}

/// The holder that a line names.
pub open spec fn line_owner(line: Seq<char>) -> Option<Seq<char>> {
    let t = text::trimmed(line);
    if text::starts(t, "pid="@) {
        Some(text::trimmed(t.skip("pid="@.len() as int)))
    } else {
        None
    }
}

/// The holder that the first line which names one names.
pub open spec fn first_owner(lines: Seq<Seq<char>>) -> Option<Seq<char>>
    decreases lines.len(),
{
    if lines.len() == 0 {
        None
    } else {
        match line_owner(lines[0]) {
            Some(pid) => Some(pid),
            None => first_owner(lines.drop_first()),
        }
    }
}

/// The process that holds the semaphore, if the file names one.
pub open spec fn owner(contents: Seq<char>) -> Option<Seq<char>> {
    match first_owner(text::line_seq(contents)) {
        Some(pid) => if pid.len() == 0 {
            None
        } else {
            Some(pid)
        },
        None => None,
    }
}

/// What a holder writes into the file.
pub fn lock_contents(pid: u32) -> (r: String)
    ensures
        r@ == lock_text(pid as nat),
{
    let digits = number::write_number(pid as u64);
    let mut r = text::concat("pid=", digits.as_str());
    r.append("\n");
    r
}

/// The process that holds the semaphore, if the file names one.
pub fn lock_owner(contents: &str) -> (r: Option<String>)
    ensures
        r.deep_view() == owner(contents@),
{
    let lines = text::lines(contents);
    let ghost all = lines.deep_view();
    let mut i: usize = 0;
    assert(all.skip(0) =~= all);
    while i < lines.len()
        invariant
            i <= lines.len(),
            all == lines.deep_view(),
            all == text::line_seq(contents@),
            first_owner(all) == first_owner(all.skip(i as int)),
        decreases lines.len() - i,
    {
        proof {
            assert(all.skip(i as int)[0] == lines@[i as int]@);
            assert(all.skip(i as int).drop_first() =~= all.skip(i + 1));
        }
        if let Some(rest) = text::strip_prefix(text::trim(lines[i].as_str()), "pid=") {
            let pid = text::trim(rest);
            if text::chars_of(pid).len() == 0 {
                return None;
            }
            return Some(pid.to_owned());
        }
        i = i + 1;
    }
    None
}

/// The holder that is written into the file is the one that is read from it.
pub proof fn written_owner_reads_back(pid: nat)
    ensures
        owner(lock_text(pid)) == Some(number::decimal(pid)),
{
    let digits = number::decimal(pid);
    let line = "pid="@ + digits;
    let s = lock_text(pid);
    number::written_number_is_digits(pid);
    reveal_strlit("pid=");
    reveal_strlit("\n");
    assert forall|k: int| 0 <= k < line.len() implies s[k] != '\n' && s[k] != '\r' by {
        if k >= 4 {
            assert(s[k] == digits[k - 4]);
            assert(number::is_digit(digits[k - 4]));
        }
    }
    text::lemma_position_is(s, '\n', line.len() as int);
    assert(text::head(s, '\n') =~= line);
    assert(text::tail(s, '\n') =~= Seq::empty());
    assert(line.last() == s[line.len() - 1]);
    assert(text::without_cr(line) == line);
    let lines = text::line_seq(s);
    assert(text::line_seq(text::tail(s, '\n')) =~= Seq::empty());
    assert(lines =~= seq![line]);
    assert(number::is_digit(digits[digits.len() - 1]));
    assert(number::is_digit(digits[0]));
    assert(line.last() == digits[digits.len() - 1]);
    assert(text::trimmed(line) == line);
    assert(line.take(4) =~= "pid="@);
    assert(line.skip(4) =~= digits);
    assert(text::trimmed(digits) == digits);
}

// ---------------------------------------------------------------------------
// How it is taken
// ---------------------------------------------------------------------------

/// What is to be done next.
#[derive(Debug)]
pub enum LockAction {
    /// Create the file; it must not be there.
    Create,
    /// Write into the file who holds it.
    Write,
    /// Read the file.
    Read,
    /// Find out whether there is a process of this number.
    Ask(String),
    /// Remove the file.
    Remove,
    /// The semaphore is held.
    Held,
    /// The semaphore could not be taken.
    Failed(Failure),
}

/// What came of it.
#[derive(Debug)]
pub enum LockReply {
    Created(Result<(), Failure>),
    Written(Result<(), Failure>),
    Read(Result<String, Failure>),
    Exists(bool),
    Removed(Result<(), Failure>),
}

/// What a [`LockAction`] holds.
pub enum LockActionView {
    Create,
    Write,
    Read,
    Ask(Seq<char>),
    Remove,
    Held,
    Failed(FailureView),
}

impl DeepView for LockAction {
    type V = LockActionView;

    open spec fn deep_view(&self) -> LockActionView {
        match self {
            LockAction::Create => LockActionView::Create,
            LockAction::Write => LockActionView::Write,
            LockAction::Read => LockActionView::Read,
            LockAction::Ask(pid) => LockActionView::Ask(pid@),
            LockAction::Remove => LockActionView::Remove,
            LockAction::Held => LockActionView::Held,
            LockAction::Failed(failure) => LockActionView::Failed(failure.deep_view()),
        }
    }
}

/// The failure where another deployment holds the semaphore.
pub open spec fn held_by_another(path: Seq<char>) -> FailureView {
    FailureView {
        kind: ErrorKind::WouldBlock,
        message: "deployment semaphore is held at "@ + path,
    }
}

/// What is done next: a file that is there already belongs to another
/// deployment, unless it names a process that does not exist; then it is
/// removed, and created anew.
pub open spec fn lock_next(path: Seq<char>, reply: LockReply) -> LockActionView {
    match reply {
        LockReply::Created(Ok(_)) => LockActionView::Write,
        LockReply::Created(Err(failure)) => if failure.kind == ErrorKind::AlreadyExists {
            LockActionView::Read
        } else {
            LockActionView::Failed(failure.deep_view())
        },
        LockReply::Written(Ok(_)) => LockActionView::Held,
        LockReply::Written(Err(failure)) => LockActionView::Failed(failure.deep_view()),
        LockReply::Read(Ok(contents)) => match owner(contents@) {
            Some(pid) => LockActionView::Ask(pid),
            None => LockActionView::Failed(held_by_another(path)),
        },
        LockReply::Read(Err(failure)) => LockActionView::Failed(failure.deep_view()),
        LockReply::Exists(true) => LockActionView::Failed(held_by_another(path)),
        LockReply::Exists(false) => LockActionView::Remove,
        LockReply::Removed(Ok(_)) => LockActionView::Create,
        LockReply::Removed(Err(failure)) => if failure.kind == ErrorKind::NotFound {
            LockActionView::Create
        } else {
            LockActionView::Failed(failure.deep_view())
        },
    }
}

fn held_elsewhere(path: &str) -> (r: Failure)
    ensures
        r.deep_view() == held_by_another(path@),
{
    Failure::new(
        ErrorKind::WouldBlock,
        text::concat("deployment semaphore is held at ", path),
    )
}

/// What is done next to take the semaphore at `path`; the first thing to do is
/// [`LockAction::Create`].
pub fn acquire_next(path: &str, reply: LockReply) -> (r: LockAction)
    ensures
        r.deep_view() == lock_next(path@, reply),
{
    match reply {
        LockReply::Created(Ok(_)) => LockAction::Write,
        LockReply::Created(Err(failure)) => {
            if failure.kind == ErrorKind::AlreadyExists {
                LockAction::Read
            } else {
                LockAction::Failed(failure)
            }
        },
        LockReply::Written(Ok(_)) => LockAction::Held,
        LockReply::Written(Err(failure)) => LockAction::Failed(failure),
        LockReply::Read(Ok(contents)) => match lock_owner(contents.as_str()) {
            Some(pid) => LockAction::Ask(pid),
            None => LockAction::Failed(held_elsewhere(path)),
        },
        LockReply::Read(Err(failure)) => LockAction::Failed(failure),
        LockReply::Exists(exists) => {
            if exists {
                LockAction::Failed(held_elsewhere(path))
            } else {
                LockAction::Remove
            }
        },
        LockReply::Removed(Ok(_)) => LockAction::Create,
        LockReply::Removed(Err(failure)) => {
            if failure.kind == ErrorKind::NotFound {
                LockAction::Create
            } else {
                LockAction::Failed(failure)
            }
        },
    }
}

/// Whether a reply is one to an action.
pub open spec fn answers(action: LockActionView, reply: LockReply) -> bool {
    match action {
        LockActionView::Create => reply is Created,
        LockActionView::Write => reply is Written,
        LockActionView::Read => reply is Read,
        LockActionView::Ask(_) => reply is Exists,
        LockActionView::Remove => reply is Removed,
        LockActionView::Held => false,
        LockActionView::Failed(_) => false,
    }
}

/// The actions of an attempt to take the semaphore, for the replies that came
/// so far.
pub open spec fn attempt(path: Seq<char>, replies: Seq<LockReply>) -> Seq<LockActionView>
    decreases replies.len(),
{
    if replies.len() == 0 {
        seq![LockActionView::Create]
    } else {
        attempt(path, replies.drop_last()).push(lock_next(path, replies.last()))
    }
}

/// Whether every reply is one to its action.
pub open spec fn answered(path: Seq<char>, replies: Seq<LockReply>) -> bool
    decreases replies.len(),
{
    replies.len() == 0 || {
        &&& answered(path, replies.drop_last())
        &&& answers(attempt(path, replies.drop_last()).last(), replies.last())
    }
}

/// The semaphore is held only where this deployment created the file itself,
/// and the creation was the last but one thing that it did.
pub proof fn holder_created_the_file(path: Seq<char>, replies: Seq<LockReply>)
    requires
        answered(path, replies),
        attempt(path, replies).last() == LockActionView::Held,
    ensures
        replies.len() >= 2,
        replies[replies.len() - 2] matches LockReply::Created(Ok(_)),
        replies[replies.len() - 1] matches LockReply::Written(Ok(_)),
{
    let front = replies.drop_last();
    assert(attempt(path, front).last() == LockActionView::Write);
    assert(answers(attempt(path, front).last(), replies.last()));
    assert(front.len() > 0);
    assert(answered(path, front));
    assert(front.last() == replies[replies.len() - 2]);
    assert(answers(attempt(path, front.drop_last()).last(), front.last()));
}

/// The file of another deployment is removed only where it named a process,
/// and there was none of that number.
pub proof fn live_holder_keeps_the_file(path: Seq<char>, replies: Seq<LockReply>)
    requires
        answered(path, replies),
        attempt(path, replies).last() == LockActionView::Remove,
    ensures
        replies.len() >= 2,
        replies[replies.len() - 1] == LockReply::Exists(false),
        replies[replies.len() - 2] matches LockReply::Read(Ok(contents)) && owner(contents@) is Some,
{
    let front = replies.drop_last();
    assert(answers(attempt(path, front).last(), replies.last()));
    assert(attempt(path, front).last() is Ask);
    assert(front.len() > 0);
    assert(answered(path, front));
    assert(front.last() == replies[replies.len() - 2]);
    assert(answers(attempt(path, front.drop_last()).last(), front.last()));
}

/// While a process holds the semaphore, no other deployment gets it: what it
/// finds is a file that is there already, which names a process that exists.
pub proof fn only_one_holds_it(path: Seq<char>, exists: Failure, contents: String, pid: nat)
    requires
        exists.kind == ErrorKind::AlreadyExists,
        contents@ == lock_text(pid),
    ensures
        lock_next(path, LockReply::Created(Err(exists))) == LockActionView::Read,
        lock_next(path, LockReply::Read(Ok(contents))) == LockActionView::Ask(
            number::decimal(pid),
        ),
        lock_next(path, LockReply::Exists(true)) == LockActionView::Failed(held_by_another(path)),
{
    written_owner_reads_back(pid);
}

// ---------------------------------------------------------------------------
// Giving it back
// ---------------------------------------------------------------------------

/// How the semaphore is given back: its file is removed.
pub fn release_step(path: &str) -> (r: FileStep)
    ensures
        r.deep_view() == StepView::Remove(path@),
{
    FileStep::Remove(path.to_owned())
}

/// What is said where the file cannot be removed.
pub fn release_message(path: &str, failure: &Failure) -> (r: String)
    ensures
        r@ == "failed to remove lock "@ + path@ + ": "@ + failure.message@,
{
    let mut r = text::concat("failed to remove lock ", path);
    r.append(": ");
    r.append(failure.message.as_str());
    r
}

/// A semaphore that was given back is free: its file is gone, and no other file
/// has changed.
pub proof fn released_semaphore_is_free(disk: Disk, path: Seq<char>)
    ensures
        ({
            let after = switch::effects(disk, seq![StepView::Remove(path)]);
            &&& switch::held(after, path) is None
            &&& forall|other: Seq<char>|
                other != path ==> #[trigger] switch::held(after, other) == switch::held(
                    disk,
                    other,
                )
        }),
{
    let steps = seq![StepView::Remove(path)];
    assert(steps.drop_last() =~= Seq::empty());
    assert(switch::effects(disk, Seq::empty()) == disk);
    assert(switch::effects(disk, steps) == disk.remove(path));
}

/// A line names its owner behind `pid=`, whatever white space stands around it.
pub proof fn written_line_names_its_owner(
    white: Seq<char>,
    blanks: Seq<char>,
    pid: Seq<char>,
    behind: Seq<char>,
)
    requires
        forall|k: int| 0 <= k < white.len() ==> text::white(#[trigger] white[k]),
        forall|k: int| 0 <= k < blanks.len() ==> text::white(#[trigger] blanks[k]),
        forall|k: int| 0 <= k < behind.len() ==> text::white(#[trigger] behind[k]),
        pid.len() > 0 ==> !text::white(pid[0]) && !text::white(pid.last()),
    ensures
        line_owner(white + "pid="@ + blanks + pid + behind) == Some(pid),
{
    reveal_strlit("pid=");
    let none = Seq::<char>::empty();
    let line = white + "pid="@ + blanks + pid + behind;
    if pid.len() == 0 {
        let end = blanks + behind;
        assert(line =~= white + "pid="@ + end);
        assert forall|k: int| 0 <= k < end.len() implies text::white(#[trigger] end[k]) by {
            if k < blanks.len() {
                assert(end[k] == blanks[k]);
            } else {
                assert(end[k] == behind[k - blanks.len()]);
            }
        }
        text::trimming_takes_the_ends(white, "pid="@, end);
        assert("pid="@.take(4) =~= "pid="@);
        assert("pid="@.skip(4) =~= none);
        text::trimming_takes_the_ends(none, none, none);
        assert(none + none + none =~= none);
        assert(pid =~= none);
    } else {
        let t = "pid="@ + blanks + pid;
        assert(line =~= white + t + behind);
        text::trimming_takes_the_ends(white, t, behind);
        assert(t.take(4) =~= "pid="@);
        assert(t.skip(4) =~= blanks + pid + none);
        text::trimming_takes_the_ends(blanks, pid, none);
    }
}

/// The owner of a semaphore is the one that the first line with `pid=` names:
/// lines before it do not matter, and lines behind it neither. Where that line
/// names nobody, nobody owns it.
pub proof fn first_line_with_an_owner_counts(line: Seq<char>, rest: Seq<char>)
    requires
        !line.contains('\n'),
        !text::ends(line, '\r'),
    ensures
        line_owner(line) is None ==> {
            &&& owner(line.push('\n') + rest) == owner(rest)
            &&& owner(line.push('\r').push('\n') + rest) == owner(rest)
            &&& owner(line) is None
        },
        line_owner(line) matches Some(pid) ==> {
            &&& pid.len() > 0 ==> owner(line.push('\n') + rest) == Some(pid)
            &&& pid.len() > 0 ==> owner(line.push('\r').push('\n') + rest) == Some(pid)
            &&& pid.len() > 0 && line.len() > 0 ==> owner(line) == Some(pid)
            &&& pid.len() == 0 ==> owner(line.push('\n') + rest) is None
        },
        owner(Seq::empty()) is None,
{
    reveal_with_fuel(first_owner, 2);
    text::lines_stand_before_their_ends(line, rest);
    text::lines_stand_before_their_ends(Seq::empty(), Seq::empty());
    let lines = text::line_seq(line.push('\n') + rest);
    assert(lines[0] == line);
    assert(lines.drop_first() =~= text::line_seq(rest));
    assert(seq![line].drop_first() =~= Seq::empty());
}

/// A semaphore whose owner is gone is taken over: its file is removed and
/// created anew, also where somebody else removed it meanwhile.
pub proof fn stale_semaphore_is_taken_over(
    path: Seq<char>,
    replies: Seq<LockReply>,
    exists: Failure,
    contents: String,
    removed: Result<(), Failure>,
)
    requires
        answered(path, replies),
        attempt(path, replies).last() == LockActionView::Create,
        exists.kind == ErrorKind::AlreadyExists,
        owner(contents@) is Some,
        removed is Ok || removed->Err_0.kind == ErrorKind::NotFound,
    ensures
        ({
            let met = replies.push(LockReply::Created(Err(exists)));
            let read = met.push(LockReply::Read(Ok(contents)));
            let gone = read.push(LockReply::Exists(false));
            let again = gone.push(LockReply::Removed(removed));
            let made = again.push(LockReply::Created(Ok(())));
            let held = made.push(LockReply::Written(Ok(())));
            &&& answered(path, held)
            &&& attempt(path, met).last() == LockActionView::Read
            &&& attempt(path, read).last() == LockActionView::Ask(owner(contents@)->0)
            &&& attempt(path, gone).last() == LockActionView::Remove
            &&& attempt(path, again).last() == LockActionView::Create
            &&& attempt(path, made).last() == LockActionView::Write
            &&& attempt(path, held).last() == LockActionView::Held
        }),
{
    let met = replies.push(LockReply::Created(Err(exists)));
    let read = met.push(LockReply::Read(Ok(contents)));
    let gone = read.push(LockReply::Exists(false));
    let again = gone.push(LockReply::Removed(removed));
    let made = again.push(LockReply::Created(Ok(())));
    let held = made.push(LockReply::Written(Ok(())));
    assert(met.drop_last() =~= replies);
    assert(read.drop_last() =~= met);
    assert(gone.drop_last() =~= read);
    assert(again.drop_last() =~= gone);
    assert(made.drop_last() =~= again);
    assert(held.drop_last() =~= made);
    assert(attempt(path, met).last() == LockActionView::Read);
    assert(answered(path, met));
    assert(attempt(path, read).last() == LockActionView::Ask(owner(contents@)->0));
    assert(answered(path, read));
    assert(attempt(path, gone).last() == LockActionView::Remove);
    assert(answered(path, gone));
    assert(attempt(path, again).last() == LockActionView::Create);
    assert(answered(path, again));
    assert(attempt(path, made).last() == LockActionView::Write);
    assert(answered(path, made));
}

/// An attempt fails only for a reason: the semaphore is held by somebody who is
/// there or who is not known, or a step failed, and then with that failure.
pub proof fn attempt_fails_for_a_reason(path: Seq<char>, replies: Seq<LockReply>)
    requires
        answered(path, replies),
        replies.len() > 0,
    ensures
        ({
            let last = attempt(path, replies).last();
            &&& replies.last() == LockReply::Exists(true) ==> last is Failed
                && last->Failed_0.kind == ErrorKind::WouldBlock && text::contains_text(
                last->Failed_0.message,
                path,
            )
            &&& replies.last() matches LockReply::Read(Ok(contents)) ==> (last is Failed
                <==> owner(contents@) is None)
            &&& replies.last() matches LockReply::Read(Ok(contents)) ==> (last is Failed
                ==> last->Failed_0.kind == ErrorKind::WouldBlock && text::contains_text(
                last->Failed_0.message,
                path,
            ))
            &&& replies.last() matches LockReply::Read(Err(failure)) ==> last
                == LockActionView::Failed(failure.deep_view())
            &&& replies.last() matches LockReply::Written(Err(failure)) ==> last
                == LockActionView::Failed(failure.deep_view())
            &&& replies.last() matches LockReply::Created(Err(failure)) ==> (last is Failed
                <==> failure.kind != ErrorKind::AlreadyExists)
            &&& replies.last() matches LockReply::Created(Err(failure)) ==> (last is Failed
                ==> last == LockActionView::Failed(failure.deep_view()))
            &&& replies.last() matches LockReply::Removed(Err(failure)) ==> (last is Failed
                <==> failure.kind != ErrorKind::NotFound)
            &&& replies.last() matches LockReply::Removed(Err(failure)) ==> (last is Failed
                ==> last == LockActionView::Failed(failure.deep_view()))
            &&& replies.last() matches LockReply::Created(Ok(_)) ==> last == LockActionView::Write
            &&& replies.last() matches LockReply::Written(Ok(_)) ==> last == LockActionView::Held
            &&& replies.last() matches LockReply::Removed(Ok(_)) ==> last
                == LockActionView::Create
        }),
{
    let front = "deployment semaphore is held at "@;
    text::text_occurs_where_it_stands(front, path, Seq::empty());
    assert(front + path + Seq::<char>::empty() =~= front + path);
}

} // verus!
