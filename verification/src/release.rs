//! Artifacts and releases: which artifact is next, and under which name an
//! artifact is kept.
use vstd::prelude::*;

use crate::config::AppConfig;
use crate::number;
use crate::order;
use crate::paths;
use crate::text;

verus! {

/// What is found in the inbox.
#[derive(Debug)]
pub struct InboxEntry {
    pub name: String,
    pub is_file: bool,
}

/// What an [`InboxEntry`] holds.
pub struct EntryView {
    pub name: Seq<char>,
    pub is_file: bool,
}

impl DeepView for InboxEntry {
    type V = EntryView;

    open spec fn deep_view(&self) -> EntryView {
        EntryView { name: self.name@, is_file: self.is_file }
    }
}

/// Whether a name is that of a file which is still being written: it has the
/// extension `tmp`.
pub open spec fn temporary(name: Seq<char>) -> bool {
    name.len() > 4 && text::occurs(name, ".tmp"@, name.len() - 4)
}

/// Whether an entry of the inbox is an artifact.
pub open spec fn is_artifact(entry: EntryView) -> bool {
    entry.is_file && !temporary(entry.name)
}

/// The names of the artifacts in the inbox.
pub open spec fn artifacts(entries: Seq<EntryView>) -> Seq<Seq<char>>
    decreases entries.len(),
{
    if entries.len() == 0 {
        Seq::empty()
    } else {
        let front = artifacts(entries.drop_last());
        if is_artifact(entries.last()) {
            front.push(entries.last().name)
        } else {
            front
        }
    }
}

/// The artifact that is deployed next: the first in the order of their names.
pub open spec fn next_name(entries: Seq<EntryView>) -> Option<Seq<char>> {
    let names = order::sorted(artifacts(entries), order::name_after());
    if names.len() == 0 {
        None
    } else {
        Some(names[0])
    }
}

fn is_temporary(name: &str) -> (r: bool)
    ensures
        r == temporary(name@),
{
    let v = text::chars_of(name);
    let ending = text::chars_of(".tmp");
    v.len() > 4 && text::occurs_at(&v, &ending, v.len() - 4)
}

/// The path of the artifact that is deployed next, if there is one.
pub fn next_artifact(inbox_dir: &str, entries: &Vec<InboxEntry>) -> (r: Option<String>)
    ensures
        r.deep_view() == match next_name(entries.deep_view()) {
            Some(name) => Some(paths::below(inbox_dir@, name)),
            None => None,
        },
{
    let ghost all = entries.deep_view();
    let mut names: Vec<String> = Vec::new();
    let mut i: usize = 0;
    assert(all.take(0) =~= Seq::empty());
    assert(names.deep_view() =~= Seq::empty());
    while i < entries.len()
        invariant
            i <= entries.len(),
            all == entries.deep_view(),
            names.deep_view() == artifacts(all.take(i as int)),
        decreases entries.len() - i,
    {
        let ghost done = names.deep_view();
        assert(all.take(i + 1).drop_last() =~= all.take(i as int));
        assert(all[i as int] == entries@[i as int].deep_view());
        if entries[i].is_file && !is_temporary(entries[i].name.as_str()) {
            names.push(entries[i].name.clone());
            assert(names.deep_view() =~= done.push(all[i as int].name));
        }
        i = i + 1;
    }
    assert(all.take(entries.len() as int) =~= all);
    let names = order::sort_names(names);
    assert(names.deep_view().len() == names.len());
    if names.len() == 0 {
        None
    } else {
        assert(names.deep_view()[0] == names@[0]@);
        Some(paths::join(inbox_dir, names[0].as_str()))
    }
}

/// Whether an artifact of this name is in the inbox.
pub open spec fn in_inbox(entries: Seq<EntryView>, name: Seq<char>) -> bool {
    exists|j: int|
        0 <= j < entries.len() && is_artifact(entries[j]) && (#[trigger] entries[j]).name == name
}

proof fn lemma_artifacts(entries: Seq<EntryView>)
    ensures
        forall|k: int|
            0 <= k < artifacts(entries).len() ==> in_inbox(
                entries,
                #[trigger] artifacts(entries)[k],
            ),
        forall|j: int|
            0 <= j < entries.len() && is_artifact(#[trigger] entries[j]) ==> artifacts(
                entries,
            ).contains(entries[j].name),
    decreases entries.len(),
{
    if entries.len() > 0 {
        let front = entries.drop_last();
        lemma_artifacts(front);
        let names = artifacts(entries);
        let some = artifacts(front);
        assert forall|k: int| 0 <= k < names.len() implies in_inbox(
            entries,
            #[trigger] names[k],
        ) by {
            if k < some.len() {
                assert(in_inbox(front, some[k]));
                let j = choose|j: int|
                    0 <= j < front.len() && is_artifact(front[j]) && (#[trigger] front[j]).name
                        == some[k];
                assert(entries[j] == front[j]);
            } else {
                assert(entries[entries.len() - 1].name == names[k]);
            }
        }
        assert forall|j: int| 0 <= j < entries.len() && is_artifact(
            #[trigger] entries[j],
        ) implies names.contains(entries[j].name) by {
            if j < front.len() {
                assert(front[j] == entries[j]);
                assert(some.contains(front[j].name));
                let k = choose|k: int| 0 <= k < some.len() && some[k] == front[j].name;
                assert(names[k] == entries[j].name);
            } else {
                assert(names[names.len() - 1] == entries[j].name);
            }
        }
    }
}

/// An artifact is deployed whenever there is one. It is a file in the inbox
/// that is not still being written, and no other artifact comes before it in the
/// order of names.
pub proof fn next_artifact_is_the_first(entries: Seq<EntryView>)
    ensures
        match next_name(entries) {
            Some(name) => {
                &&& in_inbox(entries, name)
                &&& forall|j: int|
                    0 <= j < entries.len() && is_artifact(#[trigger] entries[j])
                        ==> !text::before(entries[j].name, name)
            },
            None => forall|j: int| 0 <= j < entries.len() ==> !is_artifact(#[trigger] entries[j]),
        },
{
    let names = artifacts(entries);
    let after = order::name_after();
    order::name_order();
    order::sorting_keeps_the_items(names, after);
    lemma_artifacts(entries);
    if names.len() > 0 {
        let i = order::first_of_sorted(names, after);
        let name = names[i];
        assert(in_inbox(entries, names[i]));
        assert forall|j: int| 0 <= j < entries.len() && is_artifact(
            #[trigger] entries[j],
        ) implies !text::before(entries[j].name, name) by {
            assert(names.contains(entries[j].name));
            let k = choose|k: int| 0 <= k < names.len() && names[k] == entries[j].name;
            assert(!after(names[i], names[k]));
        }
    } else {
        assert forall|j: int| 0 <= j < entries.len() implies !is_artifact(
            #[trigger] entries[j],
        ) by {
            if is_artifact(entries[j]) {
                assert(names.contains(entries[j].name));
            }
        }
    }
}

/// How an artifact gets among the releases.
#[derive(Clone, Copy, Debug, PartialEq, Eq, Structural)]
pub enum ArtifactMode {
    /// It is moved there.
    Move,
    /// It is copied there.
    Copy,
}

/// The name under which a file is kept: the time, a hyphen, and its own name.
pub open spec fn stamped(stamp: u64, name: Seq<char>) -> Seq<char> {
    number::decimal(stamp as nat) + "-"@ + name
}

fn write_stamped(stamp: u64, name: Option<&str>, default: &str) -> (r: String)
    ensures
        r@ == stamped(
            stamp,
            match name {
                Some(name) => name@,
                None => default@,
            },
        ),
{
    let mut r = number::write_number(stamp);
    r.append("-");
    match name {
        Some(name) => r.append(name),
        None => r.append(default),
    }
    r
}

/// The path of a release in the directory `releases_dir`.
pub open spec fn release_name(
    releases_dir: Seq<char>,
    stamp: u64,
    name: Option<Seq<char>>,
) -> Seq<char> {
    paths::below(
        releases_dir,
        stamped(
            stamp,
            match name {
                Some(name) => name,
                None => "artifact"@,
            },
        ),
    )
}

/// The path of an artifact that failed, in the directory `failed_dir`.
pub open spec fn quarantine_name(
    failed_dir: Seq<char>,
    stamp: u64,
    name: Option<Seq<char>>,
) -> Seq<char> {
    paths::below(
        failed_dir,
        stamped(
            stamp,
            match name {
                Some(name) => name,
                None => "failed-artifact"@,
            },
        ),
    )
}

/// The path of the release that is made of an artifact with this name.
pub fn release_path(releases_dir: &str, stamp: u64, name: Option<&str>) -> (r: String)
    ensures
        r@ == release_name(releases_dir@, stamp, name.deep_view()),
{
    let kept = write_stamped(stamp, name, "artifact");
    paths::join(releases_dir, kept.as_str())
}

/// The path at which an artifact with this name that failed is put aside.
pub fn quarantine_path(failed_dir: &str, stamp: u64, name: Option<&str>) -> (r: String)
    ensures
        r@ == quarantine_name(failed_dir@, stamp, name.deep_view()),
{
    let kept = write_stamped(stamp, name, "failed-artifact");
    paths::join(failed_dir, kept.as_str())
}

/// The path of the release that is made of an artifact at the time `stamp`.
pub fn import_release(config: &AppConfig, artifact: &str, stamp: u64) -> (r: String)
    ensures
        r@ == release_name(config.releases_dir@, stamp, paths::last_name(artifact@)),
        forall|dir: Seq<char>, name: Seq<char>|
            paths::plain_name(name) && artifact@ == #[trigger] paths::below(dir, name) ==> r@
                == release_name(config.releases_dir@, stamp, Some(name)),
{
    let name = paths::file_name(artifact);
    release_path(config.releases_dir.as_str(), stamp, text::as_text(&name))
}

/// The path at which an artifact that failed is put aside at the time `stamp`.
pub fn quarantine_failed_artifact(config: &AppConfig, artifact: &str, stamp: u64) -> (r: String)
    ensures
        r@ == quarantine_name(
            paths::below(config.inbox_dir@, "failed"@),
            stamp,
            paths::last_name(artifact@),
        ),
        forall|dir: Seq<char>, name: Seq<char>|
            paths::plain_name(name) && artifact@ == #[trigger] paths::below(dir, name) ==> r@
                == quarantine_name(
                paths::below(config.inbox_dir@, "failed"@),
                stamp,
                Some(name),
            ),
{
    let dir = config.failed_dir();
    let name = paths::file_name(artifact);
    quarantine_path(dir.as_str(), stamp, text::as_text(&name))
}

/// The name of an artifact in the log of deployments: the last part of its
/// path, or the path where that has none.
pub fn artifact_name(artifact: &str) -> (r: String)
    ensures
        r@ == match paths::last_name(artifact@) {
            Some(name) => name,
            None => artifact@,
        },
        forall|dir: Seq<char>, name: Seq<char>|
            paths::plain_name(name) && artifact@ == #[trigger] paths::below(dir, name) ==> r@
                == name,
{
    match paths::file_name(artifact) {
        Some(name) => name,
        None => artifact.to_owned(),
    }
}

/// The name under which a file is kept tells the time and its own name apart:
/// two files that differ in either are kept under different names.
pub proof fn stamped_names_stay_apart(a: u64, b: u64, name: Seq<char>, other: Seq<char>)
    requires
        a != b || name != other,
    ensures
        stamped(a, name) != stamped(b, other),
{
    let x = number::decimal(a as nat);
    let y = number::decimal(b as nat);
    let s = stamped(a, name);
    let t = stamped(b, other);
    reveal_strlit("-");
    number::written_number_is_digits(a as nat);
    number::written_number_is_digits(b as nat);
    if s == t {
        assert(s[x.len() as int] == '-');
        assert(t[y.len() as int] == '-');
        if x.len() < y.len() {
            assert(t[x.len() as int] == y[x.len() as int]);
            assert(number::is_digit(y[x.len() as int]));
        } else if y.len() < x.len() {
            assert(s[y.len() as int] == x[y.len() as int]);
            assert(number::is_digit(x[y.len() as int]));
        } else {
            assert(s.take(x.len() as int) =~= x);
            assert(t.take(y.len() as int) =~= y);
            number::written_number_reads_back(a as nat, u64::MAX as nat);
            number::written_number_reads_back(b as nat, u64::MAX as nat);
            assert(s.skip(x.len() as int + 1) =~= name);
            assert(t.skip(y.len() as int + 1) =~= other);
        }
    }
}

/// A file that is still being written is known by the ending `.tmp` behind a
/// name.
pub proof fn unfinished_files_end_with_tmp(stem: Seq<char>, name: Seq<char>)
    ensures
        stem.len() > 0 ==> temporary(stem + ".tmp"@),
        !temporary(".tmp"@),
        temporary(name) ==> exists|front: Seq<char>|
            front.len() > 0 && name == #[trigger] (front + ".tmp"@),
{
    reveal_strlit(".tmp");
    let whole = stem + ".tmp"@;
    assert(whole.subrange(whole.len() - 4, whole.len() as int) =~= ".tmp"@);
    if temporary(name) {
        let front = name.take(name.len() - 4);
        assert(name =~= front + name.subrange(name.len() - 4, name.len() as int));
        assert(name == front + ".tmp"@);
    }
}

/// The next artifact is a file of the inbox that is not still being written, and
/// of these none has a name that comes before. There is none exactly where there
/// is no such file.
pub proof fn next_artifact_is_a_finished_file(entries: Seq<EntryView>)
    ensures
        match next_name(entries) {
            Some(name) => {
                &&& exists|j: int|
                    0 <= j < entries.len() && #[trigger] entries[j] == (EntryView {
                        name,
                        is_file: true,
                    })
                &&& forall|stem: Seq<char>| stem.len() > 0 ==> name != #[trigger] (stem + ".tmp"@)
                &&& forall|j: int|
                    0 <= j < entries.len() && (#[trigger] entries[j]).is_file && (forall|
                        stem: Seq<char>,
                    |
                        stem.len() > 0 ==> entries[j].name != #[trigger] (stem + ".tmp"@))
                        ==> !text::before(entries[j].name, name)
            },
            None => forall|j: int|
                0 <= j < entries.len() && (#[trigger] entries[j]).is_file ==> exists|
                    stem: Seq<char>,
                |
                    stem.len() > 0 && entries[j].name == #[trigger] (stem + ".tmp"@),
        },
{
    next_artifact_is_the_first(entries);
    if let Some(name) = next_name(entries) {
        let j = choose|j: int|
            0 <= j < entries.len() && is_artifact(entries[j]) && (#[trigger] entries[j]).name
                == name;
        assert(entries[j] == (EntryView { name, is_file: true }));
        assert forall|stem: Seq<char>| stem.len() > 0 implies name != #[trigger] (stem
            + ".tmp"@) by {
            unfinished_files_end_with_tmp(stem, name);
        }
        assert forall|j: int|
            0 <= j < entries.len() && (#[trigger] entries[j]).is_file && (forall|stem: Seq<char>|
                stem.len() > 0 ==> entries[j].name != #[trigger] (stem + ".tmp"@)) implies
            !text::before(entries[j].name, name) by {
            unfinished_files_end_with_tmp(Seq::empty(), entries[j].name);
            assert(is_artifact(entries[j]));
        }
    } else {
        assert forall|j: int| 0 <= j < entries.len() && (#[trigger] entries[j]).is_file implies
            exists|stem: Seq<char>| stem.len() > 0 && entries[j].name == #[trigger] (stem
            + ".tmp"@) by {
            assert(!is_artifact(entries[j]));
            unfinished_files_end_with_tmp(Seq::empty(), entries[j].name);
        }
    }
}

/// A release keeps the name of its artifact, behind the time of its import and a
/// hyphen, and lies in the directory of the releases; an artifact that failed
/// keeps it in the same way. Only where there is no name, one is made up.
pub proof fn kept_files_keep_their_names(dir: Seq<char>, stamp: u64, name: Seq<char>)
    ensures
        release_name(dir, stamp, Some(name)) == paths::below(
            dir,
            number::decimal(stamp as nat) + "-"@ + name,
        ),
        quarantine_name(dir, stamp, Some(name)) == paths::below(
            dir,
            number::decimal(stamp as nat) + "-"@ + name,
        ),
        release_name(dir, stamp, None) == paths::below(
            dir,
            number::decimal(stamp as nat) + "-artifact"@,
        ),
        quarantine_name(dir, stamp, None) == paths::below(
            dir,
            number::decimal(stamp as nat) + "-failed-artifact"@,
        ),
{
    let digits = number::decimal(stamp as nat);
    reveal_strlit("-");
    reveal_strlit("artifact");
    reveal_strlit("failed-artifact");
    reveal_strlit("-artifact");
    reveal_strlit("-failed-artifact");
    assert(digits + "-"@ + "artifact"@ =~= digits + "-artifact"@);
    assert(digits + "-"@ + "failed-artifact"@ =~= digits + "-failed-artifact"@);
}

/// A release lies in the directory of the releases: its path is that of the
/// directory, a separator, and its name.
pub proof fn releases_lie_in_their_directory(dir: Seq<char>, stamp: u64, name: Seq<char>)
    requires
        dir.len() > 0,
        dir.last() != '/',
    ensures
        release_name(dir, stamp, Some(name)) == dir + "/"@ + number::decimal(stamp as nat) + "-"@
            + name,
        quarantine_name(dir, stamp, Some(name)) == dir + "/"@ + number::decimal(stamp as nat)
            + "-"@ + name,
{
    let digits = number::decimal(stamp as nat);
    number::written_number_is_digits(stamp as nat);
    assert(number::is_digit(digits[0]));
    assert(stamped(stamp, name)[0] == digits[0]);
    paths::name_lies_in_the_directory(dir, stamped(stamp, name));
    assert(dir + "/"@ + (digits + "-"@ + name) =~= dir + "/"@ + digits + "-"@ + name);
}

} // verus!
