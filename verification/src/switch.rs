//! The switch of traffic from one slot to another, and the record of which slot
//! has it: what is written where, and in which order.
use vstd::prelude::*;

use crate::config;
use crate::config::{AppConfig, SwitchConfig, SwitchView};
use crate::failure::{ErrorKind, Failure, FailureView};
use crate::nginx::candidates;
use crate::nginx::source::TargetView;
use crate::number;
use crate::paths;
use crate::template;
use crate::template::RenderContext;
use crate::text;

verus! {

// ---------------------------------------------------------------------------
// Steps
// ---------------------------------------------------------------------------

/// A change of the disk, or a command.
#[derive(Debug)]
pub enum FileStep {
    /// Make a directory, and those that it is in.
    MakeDir(String),
    /// Write a file.
    Write(String, Vec<u8>),
    /// Give a file another path, in the place of what is there.
    Rename(String, String),
    /// Remove a file; it may be missing.
    Remove(String),
    /// Run a command in a shell; it has to succeed.
    Run(String),
}

/// What a [`FileStep`] holds.
pub enum StepView {
    MakeDir(Seq<char>),
    Write(Seq<char>, Seq<u8>),
    Rename(Seq<char>, Seq<char>),
    Remove(Seq<char>),
    Run(Seq<char>),
}

impl DeepView for FileStep {
    type V = StepView;

    open spec fn deep_view(&self) -> StepView {
        match self {
            FileStep::MakeDir(path) => StepView::MakeDir(path@),
            FileStep::Write(path, contents) => StepView::Write(path@, contents@),
            FileStep::Rename(from, to) => StepView::Rename(from@, to@),
            FileStep::Remove(path) => StepView::Remove(path@),
            FileStep::Run(command) => StepView::Run(command@),
        }
    }
}

/// What is on disk: the contents of files, by path.
pub type Disk = Map<Seq<char>, Seq<u8>>;

/// What a step does to the disk. A command does nothing to the files that are
/// spoken of here.
pub open spec fn effect(disk: Disk, step: StepView) -> Disk {
    match step {
        StepView::MakeDir(_) => disk,
        StepView::Write(path, contents) => disk.insert(path, contents),
        StepView::Rename(from, to) => if disk.contains_key(from) {
            disk.remove(from).insert(to, disk[from])
        } else {
            disk
        },
        StepView::Remove(path) => disk.remove(path),
        StepView::Run(_) => disk,
    }
}

/// What the steps do to the disk, one after the other.
pub open spec fn effects(disk: Disk, steps: Seq<StepView>) -> Disk
    decreases steps.len(),
{
    if steps.len() == 0 {
        disk
    } else {
        effect(effects(disk, steps.drop_last()), steps.last())
    }
}

/// What a path holds, if it holds anything.
pub open spec fn held(disk: Disk, path: Seq<char>) -> Option<Seq<u8>> {
    if disk.contains_key(path) {
        Some(disk[path])
    } else {
        None
    }
}

/// A text as it is written into a file.
pub open spec fn bytes(s: Seq<char>) -> Seq<u8> {
    vstd::utf8::encode_utf8(s)
}

fn bytes_of(s: &str) -> (r: Vec<u8>)
    ensures
        r@ == bytes(s@),
{
    s.as_bytes_vec()
}

fn copy_bytes(list: &Vec<u8>) -> (r: Vec<u8>)
    ensures
        r@ == list@,
{
    let mut r: Vec<u8> = Vec::new();
    let mut i: usize = 0;
    while i < list.len()
        invariant
            i <= list.len(),
            r@ == list@.take(i as int),
        decreases list.len() - i,
    {
        r.push(list[i]);
        i = i + 1;
        assert(list@.take(i as int) =~= list@.take(i - 1).push(list@[i - 1]));
    }
    assert(r@ =~= list@);
    r
}

// ---------------------------------------------------------------------------
// The switch
// ---------------------------------------------------------------------------

/// What the file that Nginx includes says while a slot has the traffic.
pub open spec fn proxy_pass_text(host: Seq<char>, port: u16) -> Seq<char> {
    "proxy_pass http://"@ + host + ":"@ + number::decimal(port as nat) + ";\n"@
}

/// The steps that put contents in the place of a file: they are written to a
/// temporary file first, which then takes the place.
pub open spec fn replace_steps(
    path: Seq<char>,
    tmp: Seq<char>,
    parent: Option<Seq<char>>,
    contents: Seq<u8>,
) -> Seq<StepView> {
    let steps = seq![StepView::Write(tmp, contents), StepView::Rename(tmp, path)];
    match parent {
        Some(dir) => seq![StepView::MakeDir(dir)] + steps,
        None => steps,
    }
}

/// The steps that give the traffic to a slot. `parent` is the directory of the
/// file that Nginx includes, `tmp` a temporary file beside it.
pub open spec fn promote_steps(
    switch: SwitchView,
    context: RenderContext<'_>,
    parent: Option<Seq<char>>,
    tmp: Seq<char>,
) -> Seq<StepView> {
    match switch {
        SwitchView::NginxProxyPassInclude { path, reload_command, host } => replace_steps(
            path,
            tmp,
            parent,
            bytes(
                proxy_pass_text(
                    template::rendered(
                        host,
                        context.artifact@,
                        context.release@,
                        context.port,
                        context.slot@,
                    ),
                    context.port,
                ),
            ),
        ).push(StepView::Run(reload_command)),
    }
}

/// What the switch was before a promotion.
#[derive(Debug)]
pub enum SwitchState {
    /// What the file that Nginx includes said, if it was there.
    NginxProxyPassInclude { contents: Option<Vec<u8>> },
}

/// What a [`SwitchState`] holds.
pub open spec fn state_contents(state: SwitchState) -> Option<Seq<u8>> {
    match state {
        SwitchState::NginxProxyPassInclude { contents } => match contents {
            Some(list) => Some(list@),
            None => None,
        },
    }
}

/// The steps that bring the switch back to what it was.
pub open spec fn restore_steps(
    switch: SwitchView,
    contents: Option<Seq<u8>>,
    parent: Option<Seq<char>>,
    tmp: Seq<char>,
) -> Seq<StepView> {
    match switch {
        SwitchView::NginxProxyPassInclude { path, reload_command, .. } => match contents {
            Some(list) => replace_steps(path, tmp, parent, list),
            None => seq![StepView::Remove(path)],
        }.push(StepView::Run(reload_command)),
    }
}

fn write_replace_steps(path: &str, tmp: &str, parent: Option<&str>, contents: Vec<u8>) -> (r: Vec<
    FileStep,
>)
    ensures
        r.deep_view() == replace_steps(path@, tmp@, parent.deep_view(), contents@),
{
    let mut r: Vec<FileStep> = Vec::new();
    if let Some(dir) = parent {
        r.push(FileStep::MakeDir(dir.to_owned()));
    }
    let ghost list = contents@;
    r.push(FileStep::Write(tmp.to_owned(), contents));
    r.push(FileStep::Rename(tmp.to_owned(), path.to_owned()));
    assert(r.deep_view() =~= replace_steps(path@, tmp@, parent.deep_view(), list));
    r
}

/// The steps that give the traffic to a slot. `parent` is the directory of the
/// file that Nginx includes, `tmp` a temporary file beside it.
pub fn write_promotion(
    config: &AppConfig,
    context: &RenderContext<'_>,
    parent: Option<&str>,
    tmp: &str,
) -> (r: Vec<FileStep>)
    ensures
        r.deep_view() == promote_steps(
            config.deep_view().switch,
            *context,
            parent.deep_view(),
            tmp@,
        ),
{
    match &config.switch {
        SwitchConfig::NginxProxyPassInclude { path, reload_command, host } => {
            let host = template::render_template(host.as_str(), context);
            let port = number::write_number(context.port as u64);
            let mut line = text::concat("proxy_pass http://", host.as_str());
            line.append(":");
            line.append(port.as_str());
            line.append(";\n");
            let mut r = write_replace_steps(
                path.as_str(),
                tmp,
                parent,
                bytes_of(line.as_str()),
            );
            let ghost front = r.deep_view();
            r.push(FileStep::Run(reload_command.clone()));
            assert(r.deep_view() =~= front.push(StepView::Run(reload_command@)));
            r
        },
    }
}

/// The path of the file that Nginx includes.
pub open spec fn switch_path(switch: SwitchView) -> Seq<char> {
    match switch {
        SwitchView::NginxProxyPassInclude { path, .. } => path,
    }
}

/// The steps that give the traffic to a slot.
pub fn promote(config: &AppConfig, context: &RenderContext<'_>) -> (r: Vec<FileStep>)
    ensures
        ({
            let switch = config.deep_view().switch;
            r.deep_view() == promote_steps(
                switch,
                *context,
                paths::parent_path(switch_path(switch)),
                paths::extended(switch_path(switch), "tmp"@),
            )
        }),
        forall|dir: Seq<char>, name: Seq<char>|
            paths::takes_extension(name) && switch_path(config.deep_view().switch)
                == #[trigger] paths::below(dir, name) ==> ({
                let switch = config.deep_view().switch;
                r.deep_view() == promote_steps(
                    switch,
                    *context,
                    if paths::plain_dir(dir) {
                        Some(dir)
                    } else {
                        paths::parent_path(switch_path(switch))
                    },
                    paths::below(dir, paths::renamed(name, "tmp"@)),
                )
            }),
{
    let SwitchConfig::NginxProxyPassInclude { path, .. } = &config.switch;
    let parent = paths::parent(path.as_str());
    proof {
        reveal_strlit("tmp");
    }
    let tmp = paths::with_extension(path.as_str(), "tmp");
    write_promotion(config, context, text::as_text(&parent), tmp.as_str())
}

/// What a switch held, from what came of reading its file.
pub open spec fn captured(read: Result<Vec<u8>, Failure>) -> Result<
    Option<Seq<u8>>,
    FailureView,
> {
    match read {
        Ok(contents) => Ok(Some(contents@)),
        Err(failure) => if failure.kind == ErrorKind::NotFound {
            Ok(None)
        } else {
            Err(failure.deep_view())
        },
    }
}

/// What the switch is, from what came of reading the file that Nginx includes.
pub fn capture_switch_state(read: Result<Vec<u8>, Failure>) -> (r: Result<SwitchState, Failure>)
    ensures
        match read {
            Ok(contents) => r is Ok && state_contents(r->Ok_0) == Some(contents@),
            Err(failure) => if failure.kind == ErrorKind::NotFound {
                r is Ok && state_contents(r->Ok_0) is None
            } else {
                r == Err::<SwitchState, Failure>(failure)
            },
        },
        match r {
            Ok(state) => captured(read) == Ok::<Option<Seq<u8>>, FailureView>(
                state_contents(state),
            ),
            Err(failure) => captured(read) == Err::<Option<Seq<u8>>, FailureView>(
                failure.deep_view(),
            ),
        },
{
    match read {
        Ok(contents) => Ok(SwitchState::NginxProxyPassInclude { contents: Some(contents) }),
        Err(failure) => {
            if failure.kind == ErrorKind::NotFound {
                Ok(SwitchState::NginxProxyPassInclude { contents: None })
            } else {
                Err(failure)
            }
        },
    }
}

/// The steps that bring the switch back to what it was. `parent` is the
/// directory of the file that Nginx includes, `tmp` a temporary file beside it.
pub fn write_restoration(
    config: &AppConfig,
    previous: &SwitchState,
    parent: Option<&str>,
    tmp: &str,
) -> (r: Vec<FileStep>)
    ensures
        r.deep_view() == restore_steps(
            config.deep_view().switch,
            state_contents(*previous),
            parent.deep_view(),
            tmp@,
        ),
{
    match &config.switch {
        SwitchConfig::NginxProxyPassInclude { path, reload_command, .. } => {
            let mut r: Vec<FileStep> = match previous {
                SwitchState::NginxProxyPassInclude { contents: Some(contents) } => {
                    write_replace_steps(path.as_str(), tmp, parent, copy_bytes(contents))
                },
                SwitchState::NginxProxyPassInclude { contents: None } => {
                    let mut steps: Vec<FileStep> = Vec::new();
                    steps.push(FileStep::Remove(path.clone()));
                    assert(steps.deep_view() =~= seq![StepView::Remove(path@)]);
                    steps
                },
            };
            let ghost front = r.deep_view();
            r.push(FileStep::Run(reload_command.clone()));
            assert(r.deep_view() =~= front.push(StepView::Run(reload_command@)));
            r
        },
    }
}

/// The steps that bring the switch back to what it was.
pub fn restore_switch_state(config: &AppConfig, previous: &SwitchState) -> (r: Vec<FileStep>)
    ensures
        ({
            let switch = config.deep_view().switch;
            r.deep_view() == restore_steps(
                switch,
                state_contents(*previous),
                paths::parent_path(switch_path(switch)),
                paths::extended(switch_path(switch), "tmp"@),
            )
        }),
        forall|dir: Seq<char>, name: Seq<char>|
            paths::takes_extension(name) && switch_path(config.deep_view().switch)
                == #[trigger] paths::below(dir, name) ==> ({
                let switch = config.deep_view().switch;
                r.deep_view() == restore_steps(
                    switch,
                    state_contents(*previous),
                    if paths::plain_dir(dir) {
                        Some(dir)
                    } else {
                        paths::parent_path(switch_path(switch))
                    },
                    paths::below(dir, paths::renamed(name, "tmp"@)),
                )
            }),
{
    let SwitchConfig::NginxProxyPassInclude { path, .. } = &config.switch;
    let parent = paths::parent(path.as_str());
    proof {
        reveal_strlit("tmp");
    }
    let tmp = paths::with_extension(path.as_str(), "tmp");
    write_restoration(config, previous, text::as_text(&parent), tmp.as_str())
}

/// The failure of a command that ended with a status other than success.
pub fn command_failure(status: &str, command: &str) -> (r: Failure)
    ensures
        r.deep_view() == (FailureView {
            kind: ErrorKind::Other,
            message: "command exited with "@ + status@ + ": "@ + command@,
        }),
        r.deep_view() == failed_command(status@, command@),
{
    let mut message = text::concat("command exited with ", status);
    message.append(": ");
    message.append(command);
    Failure::new(ErrorKind::Other, message)
}

// ---------------------------------------------------------------------------
// The record
// ---------------------------------------------------------------------------

/// The steps that record which slot has the traffic, and with which release:
/// both are written to temporary files before either takes its place.
pub open spec fn record_steps(runtime_dir: Seq<char>, slot: Seq<char>, release: Seq<char>) -> Seq<
    StepView,
> {
    let slot_tmp = paths::below(runtime_dir, "active-slot.tmp"@);
    let release_tmp = paths::below(runtime_dir, "active-release.tmp"@);
    seq![
        StepView::Write(slot_tmp, bytes(slot)),
        StepView::Write(release_tmp, bytes(release)),
        StepView::Rename(slot_tmp, paths::below(runtime_dir, "active-slot"@)),
        StepView::Rename(release_tmp, paths::below(runtime_dir, "active-release"@)),
    ]
}

/// The steps that record which slot has the traffic, and with which release.
pub fn write_active_state(config: &AppConfig, slot: &str, release: &str) -> (r: Vec<FileStep>)
    ensures
        r.deep_view() == record_steps(config.runtime_dir@, slot@, release@),
{
    let dir = config.runtime_dir.as_str();
    let mut r: Vec<FileStep> = Vec::new();
    r.push(FileStep::Write(paths::join(dir, "active-slot.tmp"), bytes_of(slot)));
    r.push(FileStep::Write(paths::join(dir, "active-release.tmp"), bytes_of(release)));
    r.push(FileStep::Rename(paths::join(dir, "active-slot.tmp"), config.active_slot_file()));
    r.push(FileStep::Rename(paths::join(dir, "active-release.tmp"), config.active_release_file()));
    assert(r.deep_view() =~= record_steps(config.runtime_dir@, slot@, release@));
    r
}

// ---------------------------------------------------------------------------
// What holds of the steps
// ---------------------------------------------------------------------------

proof fn lemma_replace_effects(
    disk: Disk,
    path: Seq<char>,
    tmp: Seq<char>,
    parent: Option<Seq<char>>,
    contents: Seq<u8>,
    n: int,
)
    requires
        0 <= n <= replace_steps(path, tmp, parent, contents).len(),
    ensures
        ({
            let all = replace_steps(path, tmp, parent, contents);
            let after = effects(disk, all.take(n));
            &&& tmp != path && n < all.len() ==> held(after, path) == held(disk, path)
            &&& n == all.len() ==> held(after, path) == Some(contents)
        }),
{
    let all = replace_steps(path, tmp, parent, contents);
    let w = StepView::Write(tmp, contents);
    let r = StepView::Rename(tmp, path);
    reveal_with_fuel(effects, 4);
    match parent {
        Some(dir) => {
            let m = StepView::MakeDir(dir);
            assert(all =~= seq![m, w, r]);
            if n == 0 {
                assert(all.take(0) =~= Seq::empty());
            } else if n == 1 {
                assert(all.take(1) =~= seq![m]);
                assert(seq![m].drop_last() =~= Seq::empty());
            } else if n == 2 {
                assert(all.take(2) =~= seq![m, w]);
                assert(seq![m, w].drop_last() =~= seq![m]);
                assert(seq![m].drop_last() =~= Seq::empty());
            } else {
                assert(all.take(3) =~= seq![m, w, r]);
                assert(seq![m, w, r].drop_last() =~= seq![m, w]);
                assert(seq![m, w].drop_last() =~= seq![m]);
                assert(seq![m].drop_last() =~= Seq::empty());
            }
        },
        None => {
            assert(all =~= seq![w, r]);
            if n == 0 {
                assert(all.take(0) =~= Seq::empty());
            } else if n == 1 {
                assert(all.take(1) =~= seq![w]);
                assert(seq![w].drop_last() =~= Seq::empty());
            } else {
                assert(all.take(2) =~= seq![w, r]);
                assert(seq![w, r].drop_last() =~= seq![w]);
                assert(seq![w].drop_last() =~= Seq::empty());
            }
        },
    }
}

/// Wherever a promotion stops, the file that Nginx includes is what it was, or
/// what it is to be; it is never something in between.
pub proof fn promotion_replaces_at_once(
    disk: Disk,
    path: Seq<char>,
    reload: Seq<char>,
    host: Seq<char>,
    context: RenderContext<'_>,
    parent: Option<Seq<char>>,
    tmp: Seq<char>,
    n: int,
)
    requires
        tmp != path,
        0 <= n <= promote_steps(
            SwitchView::NginxProxyPassInclude { path, reload_command: reload, host },
            context,
            parent,
            tmp,
        ).len(),
    ensures
        ({
            let switch = SwitchView::NginxProxyPassInclude { path, reload_command: reload, host };
            let steps = promote_steps(switch, context, parent, tmp);
            let after = effects(disk, steps.take(n));
            let target = template::rendered(
                host,
                context.artifact@,
                context.release@,
                context.port,
                context.slot@,
            );
            held(after, path) == if n < steps.len() - 1 {
                held(disk, path)
            } else {
                Some(bytes(proxy_pass_text(target, context.port)))
            }
        }),
{
    let switch = SwitchView::NginxProxyPassInclude { path, reload_command: reload, host };
    let steps = promote_steps(switch, context, parent, tmp);
    let target = template::rendered(
        host,
        context.artifact@,
        context.release@,
        context.port,
        context.slot@,
    );
    let contents = bytes(proxy_pass_text(target, context.port));
    let all = replace_steps(path, tmp, parent, contents);
    assert(steps =~= all.push(StepView::Run(reload)));
    if n < steps.len() {
        assert(steps.take(n) =~= all.take(n));
        lemma_replace_effects(disk, path, tmp, parent, contents, n);
    } else {
        lemma_replace_effects(disk, path, tmp, parent, contents, n - 1);
        assert(steps.take(n).drop_last() =~= all.take(n - 1));
        assert(steps.take(n).last() == StepView::Run(reload));
    }
}

/// After a promotion the file that Nginx includes names the host and the port of
/// the slot.
pub proof fn promotion_takes_effect(
    disk: Disk,
    path: Seq<char>,
    reload: Seq<char>,
    host: Seq<char>,
    context: RenderContext<'_>,
    parent: Option<Seq<char>>,
    tmp: Seq<char>,
)
    ensures
        ({
            let switch = SwitchView::NginxProxyPassInclude { path, reload_command: reload, host };
            let after = effects(disk, promote_steps(switch, context, parent, tmp));
            let target = template::rendered(
                host,
                context.artifact@,
                context.release@,
                context.port,
                context.slot@,
            );
            held(after, path) == Some(bytes(proxy_pass_text(target, context.port)))
        }),
{
    let switch = SwitchView::NginxProxyPassInclude { path, reload_command: reload, host };
    let steps = promote_steps(switch, context, parent, tmp);
    let target = template::rendered(
        host,
        context.artifact@,
        context.release@,
        context.port,
        context.slot@,
    );
    let contents = bytes(proxy_pass_text(target, context.port));
    let all = replace_steps(path, tmp, parent, contents);
    lemma_replace_effects(disk, path, tmp, parent, contents, all.len() as int);
    assert(all.take(all.len() as int) =~= all);
    assert(steps.drop_last() =~= all);
    assert(steps.last() == StepView::Run(reload));
}

/// Whether a step writes, moves or removes the file at `path`.
pub open spec fn touches(step: StepView, path: Seq<char>) -> bool {
    match step {
        StepView::MakeDir(_) => false,
        StepView::Write(written, _) => written == path,
        StepView::Rename(from, to) => from == path || to == path,
        StepView::Remove(removed) => removed == path,
        StepView::Run(_) => false,
    }
}

/// Steps leave a file alone that none of them touches.
pub proof fn untouched_files_stay(disk: Disk, steps: Seq<StepView>, path: Seq<char>)
    requires
        forall|i: int| 0 <= i < steps.len() ==> !touches(#[trigger] steps[i], path),
    ensures
        held(effects(disk, steps), path) == held(disk, path),
    decreases steps.len(),
{
    if steps.len() > 0 {
        let front = steps.drop_last();
        assert forall|i: int| 0 <= i < front.len() implies !touches(#[trigger] front[i], path) by {
            assert(front[i] == steps[i]);
        }
        untouched_files_stay(disk, front, path);
        assert(!touches(steps[steps.len() - 1], path));
    }
}

/// What is on disk, and whether all went well, after steps were taken up to the
/// first that did not work.
pub open spec fn taken(
    disk: Disk,
    steps: Seq<StepView>,
    works: spec_fn(StepView) -> bool,
) -> (Disk, bool)
    decreases steps.len(),
{
    if steps.len() == 0 {
        (disk, true)
    } else {
        let (before, well) = taken(disk, steps.drop_last(), works);
        if well && works(steps.last()) {
            (effect(before, steps.last()), true)
        } else {
            (before, false)
        }
    }
}

proof fn lemma_taken(disk: Disk, steps: Seq<StepView>, works: spec_fn(StepView) -> bool) -> (n: int)
    ensures
        0 <= n <= steps.len(),
        taken(disk, steps, works).0 == effects(disk, steps.take(n)),
        taken(disk, steps, works).1 == (n == steps.len()),
        n < steps.len() ==> !works(steps[n]),
        forall|i: int| 0 <= i < n ==> works(#[trigger] steps[i]),
    decreases steps.len(),
{
    if steps.len() == 0 {
        assert(steps.take(0) =~= steps);
        0
    } else {
        let front = steps.drop_last();
        let m = lemma_taken(disk, front, works);
        assert(front.take(m) =~= steps.take(m));
        assert forall|i: int| 0 <= i < m implies works(#[trigger] steps[i]) by {
            assert(front[i] == steps[i]);
        }
        if m < front.len() {
            assert(front[m] == steps[m]);
            m
        } else if works(steps.last()) {
            assert(steps.take(m) =~= front);
            assert(steps.take(m + 1) =~= steps);
            m + 1
        } else {
            m
        }
    }
}

proof fn lemma_restored_disk(
    disk: Disk,
    path: Seq<char>,
    reload: Seq<char>,
    host: Seq<char>,
    context: RenderContext<'_>,
    parent: Option<Seq<char>>,
    tmp: Seq<char>,
    n: int,
    m: int,
)
    requires
        ({
            let switch = SwitchView::NginxProxyPassInclude { path, reload_command: reload, host };
            let steps = restore_steps(switch, held(disk, path), parent, tmp);
            &&& 0 <= n <= promote_steps(switch, context, parent, tmp).len()
            &&& steps.len() - 1 <= m <= steps.len()
        }),
    ensures
        ({
            let switch = SwitchView::NginxProxyPassInclude { path, reload_command: reload, host };
            let after = effects(disk, promote_steps(switch, context, parent, tmp).take(n));
            let steps = restore_steps(switch, held(disk, path), parent, tmp);
            let restored = effects(after, steps.take(m));
            &&& steps.last() == StepView::Run(reload)
            &&& held(restored, path) == held(disk, path)
            &&& forall|other: Seq<char>|
                other != path && other != tmp ==> #[trigger] held(restored, other) == held(
                    disk,
                    other,
                )
        }),
{
    let switch = SwitchView::NginxProxyPassInclude { path, reload_command: reload, host };
    let promotion = promote_steps(switch, context, parent, tmp).take(n);
    let after = effects(disk, promotion);
    let steps = restore_steps(switch, held(disk, path), parent, tmp);
    let restored = effects(after, steps.take(m));
    assert(steps.last() == StepView::Run(reload));
    assert(restored == effects(after, steps.drop_last())) by {
        if m == steps.len() {
            assert(steps.take(m) =~= steps);
        } else {
            assert(steps.take(m) =~= steps.drop_last());
        }
    }
    match held(disk, path) {
        Some(list) => {
            let all = replace_steps(path, tmp, parent, list);
            lemma_replace_effects(after, path, tmp, parent, list, all.len() as int);
            assert(all.take(all.len() as int) =~= all);
            assert(steps.drop_last() =~= all);
        },
        None => {
            let remove = StepView::Remove(path);
            assert(steps.drop_last() =~= seq![remove]);
            assert(seq![remove].drop_last() =~= Seq::empty());
            assert(effects(after, seq![remove]) == after.remove(path)) by {
                assert(effects(after, Seq::empty()) == after);
            }
        },
    }
    assert forall|other: Seq<char>| other != path && other != tmp implies #[trigger] held(
        restored,
        other,
    ) == held(disk, other) by {
        untouched_files_stay(disk, promotion, other);
        untouched_files_stay(after, steps.drop_last(), other);
    }
}

/// Wherever a promotion stopped, after the switch was brought back the file
/// that Nginx includes is what it was before the promotion, no other file has
/// changed but the temporary one, and Nginx was told last.
pub proof fn restoring_undoes_a_promotion(
    disk: Disk,
    path: Seq<char>,
    reload: Seq<char>,
    host: Seq<char>,
    context: RenderContext<'_>,
    parent: Option<Seq<char>>,
    tmp: Seq<char>,
    n: int,
)
    requires
        0 <= n <= promote_steps(
            SwitchView::NginxProxyPassInclude { path, reload_command: reload, host },
            context,
            parent,
            tmp,
        ).len(),
    ensures
        ({
            let switch = SwitchView::NginxProxyPassInclude { path, reload_command: reload, host };
            let after = effects(disk, promote_steps(switch, context, parent, tmp).take(n));
            let steps = restore_steps(switch, held(disk, path), parent, tmp);
            let restored = effects(after, steps);
            &&& held(restored, path) == held(disk, path)
            &&& forall|other: Seq<char>|
                other != path && other != tmp ==> #[trigger] held(restored, other) == held(
                    disk,
                    other,
                )
            &&& steps.last() == StepView::Run(reload)
        }),
{
    let switch = SwitchView::NginxProxyPassInclude { path, reload_command: reload, host };
    let steps = restore_steps(switch, held(disk, path), parent, tmp);
    assert(steps.take(steps.len() as int) =~= steps);
    lemma_restored_disk(
        disk,
        path,
        reload,
        host,
        context,
        parent,
        tmp,
        n,
        steps.len() as int,
    );
}

/// Whatever came of a promotion, bringing the switch back fails only where the
/// reload fails: the file that Nginx includes is then what it was, and no other
/// file has changed but the temporary one. The reload is the last step.
pub proof fn failed_promotion_is_undone(
    disk: Disk,
    path: Seq<char>,
    reload: Seq<char>,
    host: Seq<char>,
    context: RenderContext<'_>,
    parent: Option<Seq<char>>,
    tmp: Seq<char>,
    promoting: spec_fn(StepView) -> bool,
    restoring: spec_fn(StepView) -> bool,
)
    requires
        ({
            let switch = SwitchView::NginxProxyPassInclude { path, reload_command: reload, host };
            let steps = restore_steps(switch, held(disk, path), parent, tmp);
            forall|i: int| 0 <= i < steps.len() - 1 ==> restoring(#[trigger] steps[i])
        }),
    ensures
        ({
            let switch = SwitchView::NginxProxyPassInclude { path, reload_command: reload, host };
            let after = taken(disk, promote_steps(switch, context, parent, tmp), promoting).0;
            let steps = restore_steps(switch, held(disk, path), parent, tmp);
            let (end, well) = taken(after, steps, restoring);
            &&& steps.last() == StepView::Run(reload)
            &&& well == restoring(StepView::Run(reload))
            &&& held(end, path) == held(disk, path)
            &&& forall|other: Seq<char>|
                other != path && other != tmp ==> #[trigger] held(end, other) == held(disk, other)
        }),
{
    let switch = SwitchView::NginxProxyPassInclude { path, reload_command: reload, host };
    let promotion = promote_steps(switch, context, parent, tmp);
    let n = lemma_taken(disk, promotion, promoting);
    let after = taken(disk, promotion, promoting).0;
    let steps = restore_steps(switch, held(disk, path), parent, tmp);
    let m = lemma_taken(after, steps, restoring);
    assert(m >= steps.len() - 1) by {
        if m < steps.len() - 1 {
            assert(restoring(steps[m]));
        }
    }
    lemma_restored_disk(disk, path, reload, host, context, parent, tmp, n, m);
    assert(steps[steps.len() - 1] == StepView::Run(reload));
}

/// A promotion that failed and was undone leaves the record alone, where the
/// record is not kept in the temporary file of the switch.
pub proof fn record_survives_a_failed_promotion(
    disk: Disk,
    runtime_dir: Seq<char>,
    path: Seq<char>,
    reload: Seq<char>,
    host: Seq<char>,
    context: RenderContext<'_>,
    parent: Option<Seq<char>>,
    tmp: Seq<char>,
    promoting: spec_fn(StepView) -> bool,
    restoring: spec_fn(StepView) -> bool,
)
    requires
        tmp != paths::below(runtime_dir, "active-slot"@),
        tmp != paths::below(runtime_dir, "active-release"@),
        ({
            let switch = SwitchView::NginxProxyPassInclude { path, reload_command: reload, host };
            let steps = restore_steps(switch, held(disk, path), parent, tmp);
            forall|i: int| 0 <= i < steps.len() - 1 ==> restoring(#[trigger] steps[i])
        }),
    ensures
        ({
            let switch = SwitchView::NginxProxyPassInclude { path, reload_command: reload, host };
            let after = taken(disk, promote_steps(switch, context, parent, tmp), promoting).0;
            let steps = restore_steps(switch, held(disk, path), parent, tmp);
            let end = taken(after, steps, restoring).0;
            let slot_file = paths::below(runtime_dir, "active-slot"@);
            let release_file = paths::below(runtime_dir, "active-release"@);
            &&& held(end, slot_file) == held(disk, slot_file)
            &&& held(end, release_file) == held(disk, release_file)
        }),
{
    failed_promotion_is_undone(
        disk,
        path,
        reload,
        host,
        context,
        parent,
        tmp,
        promoting,
        restoring,
    );
}

/// The record is never kept in the temporary file of the switch: whatever the
/// name of the file that Nginx includes is, and wherever it is, undoing a
/// promotion restores it, leaves the record alone, and fails only where the
/// reload fails.
pub proof fn undoing_needs_only_the_reload(
    disk: Disk,
    runtime_dir: Seq<char>,
    dir: Seq<char>,
    name: Seq<char>,
    reload: Seq<char>,
    host: Seq<char>,
    context: RenderContext<'_>,
    parent: Option<Seq<char>>,
    promoting: spec_fn(StepView) -> bool,
    restoring: spec_fn(StepView) -> bool,
)
    requires
        paths::plain_name(name),
        ({
            let path = paths::below(dir, name);
            let tmp = paths::below(dir, paths::renamed(name, "tmp"@));
            let switch = SwitchView::NginxProxyPassInclude { path, reload_command: reload, host };
            let steps = restore_steps(switch, held(disk, path), parent, tmp);
            forall|i: int| 0 <= i < steps.len() - 1 ==> restoring(#[trigger] steps[i])
        }),
    ensures
        ({
            let path = paths::below(dir, name);
            let tmp = paths::below(dir, paths::renamed(name, "tmp"@));
            let switch = SwitchView::NginxProxyPassInclude { path, reload_command: reload, host };
            let after = taken(disk, promote_steps(switch, context, parent, tmp), promoting).0;
            let steps = restore_steps(switch, held(disk, path), parent, tmp);
            let (end, well) = taken(after, steps, restoring);
            let slot_file = paths::below(runtime_dir, "active-slot"@);
            let release_file = paths::below(runtime_dir, "active-release"@);
            &&& well == restoring(StepView::Run(reload))
            &&& held(end, path) == held(disk, path)
            &&& held(end, slot_file) == held(disk, slot_file)
            &&& held(end, release_file) == held(disk, release_file)
        }),
{
    let path = paths::below(dir, name);
    let new_name = paths::renamed(name, "tmp"@);
    let tmp = paths::below(dir, new_name);
    reveal_strlit(".");
    reveal_strlit("tmp");
    reveal_strlit("active-slot");
    reveal_strlit("active-release");
    text::lemma_last_position(name, '.');
    assert(name.contains(name[0]));
    assert(new_name[0] == name[0]);
    assert(new_name.last() == 'p');
    assert(tmp.last() == 'p');
    assert(paths::below(runtime_dir, "active-slot"@).last() == 't');
    assert(paths::below(runtime_dir, "active-release"@).last() == 'e');
    failed_promotion_is_undone(
        disk,
        path,
        reload,
        host,
        context,
        parent,
        tmp,
        promoting,
        restoring,
    );
    record_survives_a_failed_promotion(
        disk,
        runtime_dir,
        path,
        reload,
        host,
        context,
        parent,
        tmp,
        promoting,
        restoring,
    );
}

/// After all steps the record names the slot and the release; before the third
/// step nothing of the record has changed.
pub proof fn record_is_changed_last(
    disk: Disk,
    runtime_dir: Seq<char>,
    slot: Seq<char>,
    release: Seq<char>,
    n: int,
)
    requires
        0 <= n <= 4,
    ensures
        ({
            let slot_file = paths::below(runtime_dir, "active-slot"@);
            let release_file = paths::below(runtime_dir, "active-release"@);
            let after = effects(disk, record_steps(runtime_dir, slot, release).take(n));
            &&& held(after, slot_file) == if n < 3 {
                held(disk, slot_file)
            } else {
                Some(bytes(slot))
            }
            &&& held(after, release_file) == if n < 4 {
                held(disk, release_file)
            } else {
                Some(bytes(release))
            }
        }),
{
    let slot_tmp = paths::below(runtime_dir, "active-slot.tmp"@);
    let release_tmp = paths::below(runtime_dir, "active-release.tmp"@);
    let slot_file = paths::below(runtime_dir, "active-slot"@);
    let release_file = paths::below(runtime_dir, "active-release"@);
    reveal_strlit("active-slot.tmp");
    reveal_strlit("active-release.tmp");
    reveal_strlit("active-slot");
    reveal_strlit("active-release");
    assert("active-slot"@.len() == 11);
    assert("active-slot.tmp"@.len() == 15);
    assert("active-release"@.len() == 14);
    assert("active-release.tmp"@.len() == 18);
    paths::names_stay_apart(runtime_dir, "active-slot"@, "active-release"@);
    paths::names_stay_apart(runtime_dir, "active-slot"@, "active-slot.tmp"@);
    paths::names_stay_apart(runtime_dir, "active-slot"@, "active-release.tmp"@);
    paths::names_stay_apart(runtime_dir, "active-release"@, "active-slot.tmp"@);
    paths::names_stay_apart(runtime_dir, "active-release"@, "active-release.tmp"@);
    paths::names_stay_apart(runtime_dir, "active-slot.tmp"@, "active-release.tmp"@);
    let steps = record_steps(runtime_dir, slot, release);
    assert(steps.take(0) =~= Seq::empty());
    assert(effects(disk, steps.take(0)) == disk);
    assert(steps.take(1).drop_last() =~= steps.take(0));
    assert(steps.take(2).drop_last() =~= steps.take(1));
    assert(steps.take(3).drop_last() =~= steps.take(2));
    assert(steps.take(4).drop_last() =~= steps.take(3));
    let d1 = effects(disk, steps.take(1));
    let d2 = effects(disk, steps.take(2));
    let d3 = effects(disk, steps.take(3));
    assert(d1 == disk.insert(slot_tmp, bytes(slot)));
    assert(d2 == d1.insert(release_tmp, bytes(release)));
    assert(d3 == d2.remove(slot_tmp).insert(slot_file, bytes(slot)));
    assert(effects(disk, steps.take(4)) == d3.remove(release_tmp).insert(
        release_file,
        bytes(release),
    ));
}

// ---------------------------------------------------------------------------
// Where the traffic goes
// ---------------------------------------------------------------------------

/// The text that gives the traffic to a host and a port is one directive, and
/// what it passes requests to is read as that host and that port.
pub proof fn written_switch_reads_back(
    host: Seq<char>,
    port: u16,
    groups: Seq<(Seq<char>, TargetView)>,
)
    requires
        !host.contains('/'),
        !host.contains('['),
        !host.contains(']'),
    ensures
        ({
            let whole = proxy_pass_text(host, port);
            let value = whole.subrange("proxy_pass "@.len() as int, whole.len() - 2);
            &&& whole == "proxy_pass "@ + value + ";\n"@
            &&& candidates::proxy_target(value, groups) == Some(TargetView { host, port })
        }),
{
    reveal_strlit("proxy_pass ");
    reveal_strlit("http://");
    reveal_strlit("proxy_pass http://");
    reveal_strlit(";\n");
    let whole = proxy_pass_text(host, port);
    let value = "http://"@ + host + ":"@ + number::decimal(port as nat);
    assert("proxy_pass http://"@ =~= "proxy_pass "@ + "http://"@);
    assert(whole =~= "proxy_pass "@ + value + ";\n"@);
    assert(whole.subrange("proxy_pass "@.len() as int, whole.len() - 2) =~= value);
    candidates::written_backend_reads_back(host, port, groups);
}

/// A promotion gives the traffic to the configured host, on the port of the slot
/// that is deployed to.
pub proof fn promotion_gives_the_traffic_to_the_slot(
    disk: Disk,
    path: Seq<char>,
    reload: Seq<char>,
    host: Seq<char>,
    context: RenderContext<'_>,
    parent: Option<Seq<char>>,
    tmp: Seq<char>,
)
    requires
        !host.contains('{'),
    ensures
        ({
            let switch = SwitchView::NginxProxyPassInclude { path, reload_command: reload, host };
            let after = effects(disk, promote_steps(switch, context, parent, tmp));
            held(after, path) == Some(
                vstd::utf8::encode_utf8(
                    "proxy_pass http://"@ + host + ":"@ + number::decimal(context.port as nat)
                        + ";\n"@,
                ),
            )
        }),
{
    promotion_takes_effect(disk, path, reload, host, context, parent, tmp);
    template::plain_text_is_kept(
        host,
        context.artifact@,
        context.release@,
        context.port,
        context.slot@,
    );
}

/// The reload is the last step of a promotion and of its undoing, and the only
/// command that they run; the directory of the file is made first.
pub proof fn reload_comes_last(
    path: Seq<char>,
    reload: Seq<char>,
    host: Seq<char>,
    context: RenderContext<'_>,
    contents: Option<Seq<u8>>,
    dir: Seq<char>,
    tmp: Seq<char>,
)
    ensures
        ({
            let switch = SwitchView::NginxProxyPassInclude { path, reload_command: reload, host };
            let promoting = promote_steps(switch, context, Some(dir), tmp);
            let restoring = restore_steps(switch, contents, Some(dir), tmp);
            &&& promoting.last() == StepView::Run(reload)
            &&& restoring.last() == StepView::Run(reload)
            &&& promoting[0] == StepView::MakeDir(dir)
            &&& contents is Some ==> restoring[0] == StepView::MakeDir(dir)
            &&& forall|i: int|
                0 <= i < promoting.len() - 1 ==> !(#[trigger] promoting[i] is Run)
            &&& forall|i: int|
                0 <= i < restoring.len() - 1 ==> !(#[trigger] restoring[i] is Run)
        }),
{
}

/// A promotion and its undoing touch the file of the switch and the file beside
/// it that it is written to first, and no other.
pub proof fn switching_touches_one_file(
    disk: Disk,
    path: Seq<char>,
    reload: Seq<char>,
    host: Seq<char>,
    context: RenderContext<'_>,
    contents: Option<Seq<u8>>,
    parent: Option<Seq<char>>,
    tmp: Seq<char>,
    other: Seq<char>,
)
    requires
        other != path,
        other != tmp,
    ensures
        ({
            let switch = SwitchView::NginxProxyPassInclude { path, reload_command: reload, host };
            &&& held(effects(disk, promote_steps(switch, context, parent, tmp)), other) == held(
                disk,
                other,
            )
            &&& held(effects(disk, restore_steps(switch, contents, parent, tmp)), other) == held(
                disk,
                other,
            )
        }),
{
    let switch = SwitchView::NginxProxyPassInclude { path, reload_command: reload, host };
    untouched_files_stay(disk, promote_steps(switch, context, parent, tmp), other);
    untouched_files_stay(disk, restore_steps(switch, contents, parent, tmp), other);
}

/// What steps do to files: what is written is held, what is renamed is held
/// under the new name and no longer under the old one, what is removed is gone;
/// directories and commands change no file.
pub proof fn steps_change_files(
    disk: Disk,
    path: Seq<char>,
    to: Seq<char>,
    contents: Seq<u8>,
    other: Seq<char>,
)
    requires
        other != path,
        other != to,
    ensures
        held(effect(disk, StepView::Write(path, contents)), path) == Some(contents),
        held(effect(disk, StepView::Write(path, contents)), other) == held(disk, other),
        held(disk, path) is Some ==> held(effect(disk, StepView::Rename(path, to)), to) == held(
            disk,
            path,
        ),
        path != to && held(disk, path) is Some ==> held(
            effect(disk, StepView::Rename(path, to)),
            path,
        ) is None,
        held(effect(disk, StepView::Rename(path, to)), other) == held(disk, other),
        held(effect(disk, StepView::Remove(path)), path) is None,
        held(effect(disk, StepView::Remove(path)), other) == held(disk, other),
        effect(disk, StepView::MakeDir(path)) == disk,
        effect(disk, StepView::Run(path)) == disk,
{
}

/// What is captured of a switch is what its file holds, and what brings it back
/// afterwards: a file that is not there is taken away again. Any other failure to
/// read it is kept.
pub proof fn captured_switch_is_brought_back(
    disk: Disk,
    path: Seq<char>,
    reload: Seq<char>,
    host: Seq<char>,
    context: RenderContext<'_>,
    parent: Option<Seq<char>>,
    tmp: Seq<char>,
    read: Result<Vec<u8>, Failure>,
)
    requires
        match read {
            Ok(contents) => held(disk, path) == Some(contents@),
            Err(failure) => failure.kind == ErrorKind::NotFound ==> held(disk, path) is None,
        },
    ensures
        read matches Err(failure) ==> (failure.kind != ErrorKind::NotFound ==> captured(read)
            == Err::<Option<Seq<u8>>, FailureView>(failure.deep_view())),
        read is Ok || read->Err_0.kind == ErrorKind::NotFound ==> captured(read) is Ok && {
            let switch = SwitchView::NginxProxyPassInclude { path, reload_command: reload, host };
            let promoted = effects(disk, promote_steps(switch, context, parent, tmp));
            let steps = restore_steps(switch, captured(read)->Ok_0, parent, tmp);
            held(effects(promoted, steps), path) == held(disk, path)
        },
{
    if read is Ok || read->Err_0.kind == ErrorKind::NotFound {
        let switch = SwitchView::NginxProxyPassInclude { path, reload_command: reload, host };
        let steps = promote_steps(switch, context, parent, tmp);
        restoring_undoes_a_promotion(
            disk,
            path,
            reload,
            host,
            context,
            parent,
            tmp,
            steps.len() as int,
        );
        assert(steps.take(steps.len() as int) =~= steps);
        assert(captured(read)->Ok_0 == held(disk, path));
    }
}

/// The record is read where it was written: the two files hold the slot and the
/// release.
pub proof fn record_is_where_it_is_read(
    disk: Disk,
    runtime_dir: Seq<char>,
    slot: Seq<char>,
    release: Seq<char>,
)
    ensures
        ({
            let after = effects(disk, record_steps(runtime_dir, slot, release));
            &&& held(after, config::active_slot_path(runtime_dir)) == Some(
                vstd::utf8::encode_utf8(slot),
            )
            &&& held(after, config::active_release_path(runtime_dir)) == Some(
                vstd::utf8::encode_utf8(release),
            )
        }),
{
    record_is_changed_last(disk, runtime_dir, slot, release, 4);
    let steps = record_steps(runtime_dir, slot, release);
    assert(steps.take(4) =~= steps);
}

/// The failure of a command, by its status and the command.
pub open spec fn failed_command(status: Seq<char>, command: Seq<char>) -> FailureView {
    FailureView {
        kind: ErrorKind::Other,
        message: "command exited with "@ + status + ": "@ + command,
    }
}

/// The failure of a command tells its status and the command.
pub proof fn failed_command_is_named(status: Seq<char>, command: Seq<char>)
    ensures
        failed_command(status, command).kind == ErrorKind::Other,
        text::contains_text(failed_command(status, command).message, status),
        text::contains_text(failed_command(status, command).message, command),
{
    let none = Seq::<char>::empty();
    let front = "command exited with "@;
    let message = failed_command(status, command).message;
    text::text_occurs_where_it_stands(front, status, ": "@ + command);
    assert(message =~= front + status + (": "@ + command));
    text::text_occurs_where_it_stands(front + status + ": "@, command, none);
    assert(message =~= front + status + ": "@ + command + none);
}

} // verus!
