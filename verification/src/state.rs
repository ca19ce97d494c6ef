//! The state of the deployments on a machine: which slot has the traffic, which
//! one is next, and how this is shown.
use vstd::prelude::*;

use crate::config::AppConfig;
use crate::failure;
use crate::failure::{ErrorKind, Failure, FailureView};
use crate::number;
use crate::slots;
use crate::slots::{SlotConfig, SlotView};
use crate::text;

verus! {

// ---------------------------------------------------------------------------
// Files that may be missing
// ---------------------------------------------------------------------------

/// The text of a file, from what came of reading it.
pub open spec fn optional_text(read: Result<String, Failure>) -> Result<
    Option<Seq<char>>,
    FailureView,
> {
    match read {
        Ok(contents) => Ok(Some(text::trimmed(contents@))),
        Err(failure) => if failure.kind == ErrorKind::NotFound {
            Ok(None)
        } else {
            Err(failure.deep_view())
        },
    }
}

/// The text of a file without the white space around it, or nothing where
/// there is no file.
pub fn read_optional_string(read: Result<String, Failure>) -> (r: Result<Option<String>, Failure>)
    ensures
        match read {
            Ok(contents) => r is Ok && r->Ok_0.deep_view() == Some(text::trimmed(contents@)),
            Err(failure) => if failure.kind == ErrorKind::NotFound {
                r == Ok::<Option<String>, Failure>(None)
            } else {
                r == Err::<Option<String>, Failure>(failure)
            },
        },
        failure::outcome(r) == optional_text(read),
{
    match read {
        Ok(contents) => Ok(Some(text::trim(contents.as_str()).to_owned())),
        Err(failure) => {
            if failure.kind == ErrorKind::NotFound {
                Ok(None)
            } else {
                Err(failure)
            }
        },
    }
}

// ---------------------------------------------------------------------------
// The active slot and the next one
// ---------------------------------------------------------------------------

/// The index of the first slot of a name, or the number of slots where there
/// is none.
pub open spec fn slot_position(list: Seq<SlotView>, name: Seq<char>) -> nat
    decreases list.len(),
{
    if list.len() == 0 || list[0].name == name {
        0
    } else {
        1 + slot_position(list.drop_first(), name)
    }
}

/// Whether there is a slot of a name.
pub open spec fn has_slot(list: Seq<SlotView>, name: Seq<char>) -> bool {
    exists|i: int| 0 <= i < list.len() && (#[trigger] list[i]).name == name
}

/// The slot that has the traffic, by the text of the file that names it; a
/// slot that is not in the configuration is none.
pub open spec fn named_slot(list: Seq<SlotView>, contents: Seq<char>) -> Option<Seq<char>> {
    if has_slot(list, text::trimmed(contents)) {
        Some(text::trimmed(contents))
    } else {
        None
    }
}

/// The slot that is deployed to next: the one behind the active slot, and
/// behind the last one the first.
pub open spec fn next_slot(list: Seq<SlotView>, active: Option<Seq<char>>) -> SlotView {
    match active {
        None => list[0],
        Some(name) => {
            let i = slot_position(list, name) as int;
            let index = if i < list.len() {
                i
            } else {
                0
            };
            if index + 1 < list.len() {
                list[index + 1]
            } else {
                list[0]
            }
        },
    }
}

proof fn lemma_slot_position(list: Seq<SlotView>, name: Seq<char>)
    ensures
        slot_position(list, name) <= list.len(),
        slot_position(list, name) < list.len() <==> has_slot(list, name),
        slot_position(list, name) < list.len() ==> list[slot_position(list, name) as int].name
            == name,
        forall|j: int|
            0 <= j < slot_position(list, name) ==> (#[trigger] list[j]).name != name,
    decreases list.len(),
{
    if list.len() > 0 && list[0].name != name {
        let rest = list.drop_first();
        lemma_slot_position(rest, name);
        let n = slot_position(rest, name) as int;
        assert forall|j: int| 0 <= j < n + 1 implies (#[trigger] list[j]).name != name by {
            if j > 0 {
                assert(rest[j - 1] == list[j]);
            }
        }
        if n < rest.len() {
            assert(list[n + 1] == rest[n]);
        }
        if has_slot(list, name) {
            let i = choose|i: int| 0 <= i < list.len() && (#[trigger] list[i]).name == name;
            assert(rest[i - 1].name == name);
        }
    } else if list.len() > 0 {
        assert(list[0].name == name);
    }
}

fn find_slot(list: &Vec<SlotConfig>, name: &str) -> (r: Option<usize>)
    ensures
        match r {
            Some(i) => i < list.len() && i == slot_position(list.deep_view(), name@),
            None => slot_position(list.deep_view(), name@) == list.len(),
        },
{
    let ghost all = list.deep_view();
    let mut i: usize = 0;
    assert(all.skip(0) =~= all);
    while i < list.len()
        invariant
            i <= list.len(),
            all == list.deep_view(),
            slot_position(all, name@) == i + slot_position(all.skip(i as int), name@),
        decreases list.len() - i,
    {
        proof {
            assert(all.skip(i as int)[0] == list@[i as int].deep_view());
            assert(all.skip(i as int).drop_first() =~= all.skip(i + 1));
        }
        if text::same(list[i].name.as_str(), name) {
            return Some(i);
        }
        i = i + 1;
    }
    None
}

/// The slot that has the traffic, from what came of reading the record.
pub open spec fn active_of(list: Seq<SlotView>, read: Result<String, Failure>) -> Result<
    Option<Seq<char>>,
    FailureView,
> {
    match read {
        Ok(contents) => Ok(named_slot(list, contents@)),
        Err(failure) => if failure.kind == ErrorKind::NotFound {
            Ok(None)
        } else {
            Err(failure.deep_view())
        },
    }
}

/// The slot that has the traffic, from what came of reading the file that names
/// it.
pub fn active_slot(config: &AppConfig, read: Result<String, Failure>) -> (r: Result<
    Option<String>,
    Failure,
>)
    ensures
        match read {
            Ok(contents) => r is Ok && r->Ok_0.deep_view() == named_slot(
                config.slots.deep_view(),
                contents@,
            ),
            Err(failure) => if failure.kind == ErrorKind::NotFound {
                r == Ok::<Option<String>, Failure>(None)
            } else {
                r == Err::<Option<String>, Failure>(failure)
            },
        },
        failure::outcome(r) == active_of(config.slots.deep_view(), read),
{
    match read {
        Ok(contents) => {
            let name = text::trim(contents.as_str());
            proof {
                lemma_slot_position(config.slots.deep_view(), name@);
            }
            match find_slot(&config.slots, name) {
                Some(_) => Ok(Some(name.to_owned())),
                None => Ok(None),
            }
        },
        Err(failure) => {
            if failure.kind == ErrorKind::NotFound {
                Ok(None)
            } else {
                Err(failure)
            }
        },
    }
}

/// The slot that is deployed to next.
pub fn target_slot(config: &AppConfig, active_slot: Option<&str>) -> (r: Result<SlotConfig, Failure>)
    requires
        active_slot is Some ==> config.slots.len() > 0,
    ensures
        if config.slots.len() == 0 {
            r is Err && r->Err_0.deep_view() == (FailureView {
                kind: ErrorKind::InvalidInput,
                message: "at least one slot is required"@,
            })
        } else {
            r is Ok && r->Ok_0.deep_view() == next_slot(
                config.slots.deep_view(),
                active_slot.deep_view(),
            )
        },
{
    let ghost all = config.slots.deep_view();
    assert(all.len() == config.slots.len());
    match active_slot {
        None => {
            if config.slots.len() == 0 {
                Err(
                    Failure::new(
                        ErrorKind::InvalidInput,
                        "at least one slot is required".to_owned(),
                    ),
                )
            } else {
                assert(all[0] == config.slots@[0].deep_view());
                Ok(config.slots[0].clone())
            }
        },
        Some(name) => {
            proof {
                lemma_slot_position(all, name@);
            }
            let index: usize = match find_slot(&config.slots, name) {
                Some(i) => i,
                None => 0,
            };
            let next: usize = if index + 1 < config.slots.len() {
                index + 1
            } else {
                0
            };
            assert(all[next as int] == config.slots@[next as int].deep_view());
            Ok(config.slots[next].clone())
        },
    }
}

/// The next slot is one of the slots.
pub proof fn next_slot_is_listed(list: Seq<SlotView>, active: Option<Seq<char>>)
    requires
        list.len() > 0,
    ensures
        list.contains(next_slot(list, active)),
        has_slot(list, next_slot(list, active).name),
{
    let slot = next_slot(list, active);
    if let Some(name) = active {
        lemma_slot_position(list, name);
    }
    let i = choose|i: int| 0 <= i < list.len() && list[i] == slot;
    assert(list[i].name == slot.name);
}

/// Where there is more than one slot, and no two of a name, the next slot is
/// not the active one.
pub proof fn next_slot_is_another(list: Seq<SlotView>, active: Seq<char>)
    requires
        slots::distinct(list),
        list.len() > 1,
        has_slot(list, active),
    ensures
        next_slot(list, Some(active)).name != active,
        has_slot(list, next_slot(list, Some(active)).name),
{
    lemma_slot_position(list, active);
    let i = slot_position(list, active) as int;
    if i + 1 < list.len() {
        assert(list[i].name != list[i + 1].name);
    } else {
        assert(list[0].name != list[i].name);
    }
}

/// Two slots take turns: the next slot of the next slot is the active one.
pub proof fn two_slots_take_turns(list: Seq<SlotView>, active: Seq<char>)
    requires
        slots::distinct(list),
        list.len() == 2,
        has_slot(list, active),
    ensures
        next_slot(list, Some(next_slot(list, Some(active)).name)).name == active,
{
    next_slot_is_another(list, active);
    lemma_slot_position(list, active);
    lemma_slot_position(list, next_slot(list, Some(active)).name);
}

/// Every slot gets its turn: the slot behind the slot at `i` is the one at
/// `i + 1`, and behind the last one the first.
pub proof fn slots_come_in_turn(list: Seq<SlotView>, i: int)
    requires
        slots::distinct(list),
        0 <= i < list.len(),
    ensures
        next_slot(list, Some(list[i].name)) == list[(i + 1) % (list.len() as int)],
{
    let name = list[i].name;
    lemma_slot_position(list, name);
    let n = slot_position(list, name) as int;
    assert(has_slot(list, name));
    if n < i {
        assert(list[n].name != list[i].name);
    } else if i < n {
        assert(list[i].name != list[n].name);
    }
    if i + 1 < list.len() {
        assert((i + 1) % (list.len() as int) == i + 1) by (nonlinear_arith)
            requires
                0 <= i,
                i + 1 < list.len(),
        ;
    } else {
        assert((i + 1) % (list.len() as int) == 0) by (nonlinear_arith)
            requires
                i + 1 == list.len(),
                list.len() > 0,
        ;
    }
}

/// A slot that is recorded as the active one is read back as the active one.
pub proof fn recorded_slot_reads_back(list: Seq<SlotView>, name: Seq<char>)
    requires
        has_slot(list, name),
        text::trimmed(name) == name,
    ensures
        named_slot(list, name) == Some(name),
{
}

// ---------------------------------------------------------------------------
// How the state is shown
// ---------------------------------------------------------------------------

/// The lines with the directories.
pub open spec fn directories_text(
    inbox_dir: Seq<char>,
    releases_dir: Seq<char>,
    runtime_dir: Seq<char>,
) -> Seq<char> {
    "inbox: "@ + inbox_dir + "\nreleases: "@ + releases_dir + "\nruntime: "@ + runtime_dir + "\n"@
}

/// The directories of a configuration, a line for each.
pub fn status_directories(config: &AppConfig) -> (r: String)
    ensures
        r@ == "inbox: "@ + config.inbox_dir@ + "\nreleases: "@ + config.releases_dir@
            + "\nruntime: "@ + config.runtime_dir@ + "\n"@,
        r@ == directories_text(config.inbox_dir@, config.releases_dir@, config.runtime_dir@),
{
    let mut r = text::concat("inbox: ", config.inbox_dir.as_str());
    r.append("\nreleases: ");
    r.append(config.releases_dir.as_str());
    r.append("\nruntime: ");
    r.append(config.runtime_dir.as_str());
    r.append("\n");
    r
}

/// A line with a title and a value that may be missing.
pub open spec fn status_line(title: Seq<char>, value: Option<Seq<char>>) -> Seq<char> {
    title + ": "@ + match value {
        Some(text) => text,
        None => "none"@,
    } + "\n"@
}

fn write_status_line(title: &str, value: &Option<String>) -> (r: String)
    ensures
        r@ == status_line(title@, value.deep_view()),
{
    let mut r = text::concat(title, ": ");
    match value {
        Some(text) => r.append(text.as_str()),
        None => r.append("none"),
    }
    r.append("\n");
    r
}

/// The line with the active slot.
pub fn status_active_slot(active: &Option<String>) -> (r: String)
    ensures
        r@ == status_line("active slot"@, active.deep_view()),
{
    write_status_line("active slot", active)
}

/// The line with the active release.
pub fn status_active_release(release: &Option<String>) -> (r: String)
    ensures
        r@ == status_line("active release"@, release.deep_view()),
{
    write_status_line("active release", release)
}

/// The line with a slot: its name, its port, and its process.
pub open spec fn slot_line(slot: SlotView, pid: Option<Seq<char>>) -> Seq<char> {
    "  "@ + slot.name + " port="@ + number::decimal(slot.port as nat) + " pid="@ + text::trimmed(
        match pid {
            Some(text) => text,
            None => "not running"@,
        },
    ) + "\n"@
}

/// The line with a slot.
pub fn status_slot(slot: &SlotConfig, pid: &Option<String>) -> (r: String)
    ensures
        r@ == slot_line(slot.deep_view(), pid.deep_view()),
{
    let port = number::write_number(slot.port as u64);
    let mut r = text::concat("  ", slot.name.as_str());
    r.append(" port=");
    r.append(port.as_str());
    r.append(" pid=");
    match pid {
        Some(text) => r.append(text::trim(text.as_str())),
        None => r.append(text::trim("not running")),
    }
    r.append("\n");
    r
}

/// A first deployment goes to the first slot. Where a slot has the traffic that
/// the configuration no longer has, the next one is the second, or the only one.
pub proof fn first_deployment_takes_the_first_slot(list: Seq<SlotView>, unknown: Seq<char>)
    requires
        list.len() > 0,
        forall|i: int| 0 <= i < list.len() ==> (#[trigger] list[i]).name != unknown,
    ensures
        next_slot(list, None) == list[0],
        list.len() == 1 ==> next_slot(list, Some(unknown)) == list[0],
        list.len() > 1 ==> next_slot(list, Some(unknown)) == list[1],
{
    lemma_unknown_slot(list, unknown);
}

proof fn lemma_unknown_slot(list: Seq<SlotView>, unknown: Seq<char>)
    requires
        forall|i: int| 0 <= i < list.len() ==> (#[trigger] list[i]).name != unknown,
    ensures
        slot_position(list, unknown) == list.len(),
    decreases list.len(),
{
    if list.len() > 0 {
        assert(list[0].name != unknown);
        let rest = list.drop_first();
        assert forall|i: int| 0 <= i < rest.len() implies (#[trigger] rest[i]).name
            != unknown by {
            assert(rest[i] == list[i + 1]);
        }
        lemma_unknown_slot(rest, unknown);
    }
}

/// The record names a slot where it holds the name of one, whatever white space
/// stands around it; any other record names none.
pub proof fn record_names_a_slot(
    list: Seq<SlotView>,
    white: Seq<char>,
    name: Seq<char>,
    behind: Seq<char>,
)
    requires
        forall|k: int| 0 <= k < white.len() ==> text::white(#[trigger] white[k]),
        forall|k: int| 0 <= k < behind.len() ==> text::white(#[trigger] behind[k]),
        name.len() > 0 ==> !text::white(name[0]) && !text::white(name.last()),
    ensures
        (exists|i: int| 0 <= i < list.len() && (#[trigger] list[i]).name == name) ==> named_slot(
            list,
            white + name + behind,
        ) == Some(name),
        (forall|i: int| 0 <= i < list.len() ==> (#[trigger] list[i]).name != name) ==> named_slot(
            list,
            white + name + behind,
        ) is None,
{
    text::trimming_takes_the_ends(white, name, behind);
}

/// Where there is no record, no slot has the traffic; any other failure to read
/// it is kept, and a record that is read counts.
pub proof fn missing_record_names_no_slot(
    list: Seq<SlotView>,
    failure: Failure,
    contents: String,
    name: Seq<char>,
)
    requires
        contents@ == name,
        name.len() > 0,
        !text::white(name[0]),
        !text::white(name.last()),
        exists|i: int| 0 <= i < list.len() && (#[trigger] list[i]).name == name,
    ensures
        active_of(list, Ok(contents)) == Ok::<Option<Seq<char>>, FailureView>(Some(name)),
        failure.kind == ErrorKind::NotFound ==> active_of(list, Err(failure)) == Ok::<
            Option<Seq<char>>,
            FailureView,
        >(None),
        failure.kind != ErrorKind::NotFound ==> active_of(list, Err(failure)) == Err::<
            Option<Seq<char>>,
            FailureView,
        >(failure.deep_view()),
{
    let none = Seq::<char>::empty();
    record_names_a_slot(list, none, name, none);
    assert(none + name + none =~= name);
}

/// A text file is read without the white space around its text. One that is not
/// there holds nothing, and any other failure is kept.
pub proof fn written_text_reads_back(
    contents: String,
    white: Seq<char>,
    value: Seq<char>,
    behind: Seq<char>,
    failure: Failure,
)
    requires
        forall|k: int| 0 <= k < white.len() ==> text::white(#[trigger] white[k]),
        forall|k: int| 0 <= k < behind.len() ==> text::white(#[trigger] behind[k]),
        value.len() > 0 ==> !text::white(value[0]) && !text::white(value.last()),
    ensures
        contents@ == white + value + behind ==> optional_text(Ok(contents)) == Ok::<
            Option<Seq<char>>,
            FailureView,
        >(Some(value)),
        failure.kind == ErrorKind::NotFound ==> optional_text(Err(failure)) == Ok::<
            Option<Seq<char>>,
            FailureView,
        >(None),
        failure.kind != ErrorKind::NotFound ==> optional_text(Err(failure)) == Err::<
            Option<Seq<char>>,
            FailureView,
        >(failure.deep_view()),
{
    text::trimming_takes_the_ends(white, value, behind);
}

/// The status tells what there is, each on a line of its own; where there is
/// nothing, it says so.
pub proof fn status_tells_what_there_is(
    title: Seq<char>,
    value: Seq<char>,
    slot: SlotView,
    pid: Seq<char>,
)
    requires
        pid.len() > 0 ==> !text::white(pid[0]) && !text::white(pid.last()),
    ensures
        status_line(title, Some(value)) == title + ": "@ + value + "\n"@,
        status_line(title, None) == title + ": none\n"@,
        slot_line(slot, Some(pid)) == "  "@ + slot.name + " port="@ + number::decimal(
            slot.port as nat,
        ) + " pid="@ + pid + "\n"@,
        slot_line(slot, None) == "  "@ + slot.name + " port="@ + number::decimal(slot.port as nat)
            + " pid=not running\n"@,
{
    reveal_strlit(": ");
    reveal_strlit("none");
    reveal_strlit("\n");
    reveal_strlit(": none\n");
    reveal_strlit(" pid=");
    reveal_strlit("not running");
    reveal_strlit(" pid=not running\n");
    let none = Seq::<char>::empty();
    assert(title + ": "@ + "none"@ + "\n"@ =~= title + ": none\n"@);
    text::trimming_takes_the_ends(none, pid, none);
    assert(none + pid + none =~= pid);
    text::trimming_takes_the_ends(none, "not running"@, none);
    assert(none + "not running"@ + none =~= "not running"@);
    let front = "  "@ + slot.name + " port="@ + number::decimal(slot.port as nat);
    assert(front + " pid="@ + "not running"@ + "\n"@ =~= front + " pid=not running\n"@);
}

/// The status tells the three directories, each on a line of its own.
pub proof fn status_tells_the_directories(
    inbox_dir: Seq<char>,
    releases_dir: Seq<char>,
    runtime_dir: Seq<char>,
)
    requires
        !inbox_dir.contains('\n'),
        !releases_dir.contains('\n'),
        !runtime_dir.contains('\n'),
        !text::ends(inbox_dir, '\r'),
        !text::ends(releases_dir, '\r'),
        !text::ends(runtime_dir, '\r'),
    ensures
        text::line_seq(directories_text(inbox_dir, releases_dir, runtime_dir)) == seq![
            "inbox: "@ + inbox_dir,
            "releases: "@ + releases_dir,
            "runtime: "@ + runtime_dir,
        ],
{
    reveal_strlit("inbox: ");
    reveal_strlit("releases: ");
    reveal_strlit("runtime: ");
    reveal_strlit("\nreleases: ");
    reveal_strlit("\nruntime: ");
    reveal_strlit("\n");
    let none = Seq::<char>::empty();
    let first = "inbox: "@ + inbox_dir;
    let second = "releases: "@ + releases_dir;
    let third = "runtime: "@ + runtime_dir;
    let end = third.push('\n') + none;
    let middle = second.push('\n') + end;
    assert("\nreleases: "@ =~= "\n"@ + "releases: "@);
    assert("\nruntime: "@ =~= "\n"@ + "runtime: "@);
    assert(end =~= "runtime: "@ + runtime_dir + "\n"@);
    assert(middle =~= "releases: "@ + releases_dir + "\nruntime: "@ + runtime_dir + "\n"@);
    assert(directories_text(inbox_dir, releases_dir, runtime_dir) =~= first.push('\n') + middle);
    lemma_titled("inbox: "@, inbox_dir);
    lemma_titled("releases: "@, releases_dir);
    lemma_titled("runtime: "@, runtime_dir);
    text::lines_stand_before_their_ends(first, middle);
    text::lines_stand_before_their_ends(second, end);
    text::lines_stand_before_their_ends(third, none);
    text::lines_stand_before_their_ends(none, none);
    assert(seq![first] + (seq![second] + (seq![third] + Seq::<Seq<char>>::empty())) =~= seq![
        first,
        second,
        third,
    ]);
}

proof fn lemma_titled(title: Seq<char>, value: Seq<char>)
    requires
        title.len() > 0,
        !title.contains('\n'),
        title.last() != '\r',
        !value.contains('\n'),
        !text::ends(value, '\r'),
    ensures
        !(title + value).contains('\n'),
        !text::ends(title + value, '\r'),
{
    let all = title + value;
    assert forall|k: int| 0 <= k < all.len() implies all[k] != '\n' by {
        if k < title.len() {
            assert(title.contains(title[k]));
        } else {
            assert(value.contains(value[k - title.len()]));
        }
    }
    assert(all.last() == if value.len() == 0 {
        title.last()
    } else {
        value.last()
    });
}

} // verus!
