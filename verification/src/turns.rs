//! One deployment after another: what a deployment that succeeded leaves
//! behind, and what the next one makes of it.
use vstd::prelude::*;

use crate::config::SwitchView;
use crate::deploy;
use crate::deploy::{DeployView, ReplyView, Stage};
use crate::paths;
use crate::slots;
use crate::slots::SlotView;
use crate::state;
use crate::switch;
use crate::switch::Disk;
use crate::template;
use crate::template::RenderContext;
use crate::text;

verus! {

// ---------------------------------------------------------------------------
// What a deployment leaves behind
// ---------------------------------------------------------------------------

/// The disk after a deployment gave the traffic to the slot of `context` and
/// recorded it.
pub open spec fn deployed(
    disk: Disk,
    runtime_dir: Seq<char>,
    switch: SwitchView,
    context: RenderContext<'_>,
    parent: Option<Seq<char>>,
    tmp: Seq<char>,
) -> Disk {
    switch::effects(
        switch::effects(disk, switch::promote_steps(switch, context, parent, tmp)),
        switch::record_steps(runtime_dir, context.slot@, context.release@),
    )
}

/// Whether the file at `path` holds `contents`, or is missing where that is
/// `None`.
pub open spec fn reads_as(disk: Disk, path: Seq<char>, contents: Option<Seq<char>>) -> bool {
    switch::held(disk, path) == match contents {
        Some(contents) => Some(switch::bytes(contents)),
        None => None,
    }
}

/// The slot that has the traffic, by what the record holds.
pub open spec fn active_in(list: Seq<SlotView>, contents: Option<Seq<char>>) -> Option<Seq<char>> {
    match contents {
        Some(contents) => state::named_slot(list, contents),
        None => None,
    }
}

/// Whether a context is that of a deployment: it has its release, and the name
/// and port of its target slot.
pub open spec fn context_of(d: DeployView, context: RenderContext<'_>) -> bool {
    &&& d.release == Some(context.release@)
    &&& d.release == Some(context.artifact@)
    &&& d.target == Some(SlotView { name: context.slot@, port: context.port })
}

/// Whether the switch is kept in another file than the record and its temporary
/// files.
pub open spec fn switch_is_apart(runtime_dir: Seq<char>, path: Seq<char>) -> bool {
    &&& path != paths::below(runtime_dir, "active-slot"@)
    &&& path != paths::below(runtime_dir, "active-slot.tmp"@)
    &&& path != paths::below(runtime_dir, "active-release"@)
    &&& path != paths::below(runtime_dir, "active-release.tmp"@)
}

/// The slots in which an application runs after the replies of a deployment,
/// where `before` are those in which one ran when it began.
pub open spec fn running(
    list: Seq<SlotView>,
    replies: Seq<ReplyView>,
    before: Set<Seq<char>>,
) -> Set<Seq<char>>
    decreases replies.len(),
{
    if replies.len() == 0 {
        before
    } else {
        let d = deploy::run(list, replies.drop_last());
        let now = running(list, replies.drop_last(), before);
        if replies.last() is Done && d.target is Some {
            match d.stage {
                Stage::StopTarget => now.remove(d.target->0.name),
                Stage::Launch => now.insert(d.target->0.name),
                Stage::StopLaunched => now.remove(d.target->0.name),
                Stage::StopOld => if d.active is Some {
                    now.remove(d.active->0)
                } else {
                    now
                },
                _ => now,
            }
        } else {
            now
        }
    }
}

// ---------------------------------------------------------------------------
// One deployment
// ---------------------------------------------------------------------------

/// After a deployment that succeeded the record names its slot and its release,
/// and the file that Nginx includes names the host and the port of its slot.
pub proof fn success_is_on_disk(
    disk: Disk,
    runtime_dir: Seq<char>,
    path: Seq<char>,
    reload: Seq<char>,
    host: Seq<char>,
    context: RenderContext<'_>,
    parent: Option<Seq<char>>,
    tmp: Seq<char>,
)
    requires
        switch_is_apart(runtime_dir, path),
    ensures
        ({
            let switch = SwitchView::NginxProxyPassInclude { path, reload_command: reload, host };
            let after = deployed(disk, runtime_dir, switch, context, parent, tmp);
            let target = template::rendered(
                host,
                context.artifact@,
                context.release@,
                context.port,
                context.slot@,
            );
            &&& reads_as(after, paths::below(runtime_dir, "active-slot"@), Some(context.slot@))
            &&& reads_as(
                after,
                paths::below(runtime_dir, "active-release"@),
                Some(context.release@),
            )
            &&& reads_as(after, path, Some(switch::proxy_pass_text(target, context.port)))
        }),
{
    let switch = SwitchView::NginxProxyPassInclude { path, reload_command: reload, host };
    let promotion = switch::promote_steps(switch, context, parent, tmp);
    let promoted = switch::effects(disk, promotion);
    let record = switch::record_steps(runtime_dir, context.slot@, context.release@);
    switch::record_is_changed_last(promoted, runtime_dir, context.slot@, context.release@, 4);
    assert(record.take(4) =~= record);
    switch::promotion_takes_effect(disk, path, reload, host, context, parent, tmp);
    switch::untouched_files_stay(promoted, record, path);
}

proof fn lemma_course(list: Seq<SlotView>, replies: Seq<ReplyView>)
    requires
        list.len() > 0,
        deploy::in_course(list, replies),
        deploy::first_failure(replies) == replies.len(),
    ensures
        ({
            let d = deploy::run(list, replies);
            &&& replies.len() < deploy::good_course(deploy::moves(d)).len()
            &&& d.stage == deploy::good_course(deploy::moves(d))[replies.len() as int]
        }),
{
    deploy::deployment_keeps_to_the_script(list, replies);
}

proof fn lemma_front(list: Seq<SlotView>, replies: Seq<ReplyView>)
    requires
        replies.len() > 0,
        deploy::in_course(list, replies),
        deploy::first_failure(replies) == replies.len(),
    ensures
        deploy::in_course(list, replies.drop_last()),
        deploy::first_failure(replies.drop_last()) == replies.len() - 1,
        !(replies.last() is Failed),
        deploy::replies_to(deploy::run(list, replies.drop_last()).stage, replies.last()),
        deploy::run(list, replies) == deploy::after(
            deploy::run(list, replies.drop_last()),
            list,
            replies.last(),
        ),
{
    deploy::first_failure_is_the_first(replies);
    deploy::first_failure_is_the_first(replies.drop_last());
    let k = deploy::first_failure(replies.drop_last());
    if k < replies.len() - 1 {
        assert(replies.drop_last()[k] is Failed);
        assert(!(replies[k] is Failed));
    }
    assert(!(replies[replies.len() - 1] is Failed));
}

/// The slot that had the traffic is the one that was read, and the target is the
/// slot behind it, as long as nothing has failed.
pub proof fn target_follows_the_record(list: Seq<SlotView>, replies: Seq<ReplyView>)
    requires
        list.len() > 0,
        deploy::in_course(list, replies),
        deploy::first_failure(replies) == replies.len(),
        replies.len() >= 3,
    ensures
        replies[2] is Active,
        deploy::run(list, replies).active == replies[2]->Active_0,
        deploy::run(list, replies).target == Some(
            state::next_slot(list, replies[2]->Active_0),
        ),
    decreases replies.len(),
{
    let front = replies.drop_last();
    lemma_front(list, replies);
    lemma_course(list, front);
    lemma_course(list, replies);
    if replies.len() > 3 {
        target_follows_the_record(list, front);
        assert(front[2] == replies[2]);
    }
}

proof fn lemma_running(list: Seq<SlotView>, replies: Seq<ReplyView>, before: Set<Seq<char>>)
    requires
        list.len() > 0,
        deploy::in_course(list, replies),
        deploy::first_failure(replies) == replies.len(),
    ensures
        ({
            let d = deploy::run(list, replies);
            let now = running(list, replies, before);
            let n = replies.len();
            &&& n <= 3 ==> now == before
            &&& n == 4 ==> now == before.remove(d.target->0.name)
            &&& 5 <= n <= 9 ==> now == before.insert(d.target->0.name)
            &&& n == 10 ==> now == before.insert(d.target->0.name).remove(d.active->0)
        }),
    decreases replies.len(),
{
    if replies.len() > 0 {
        let front = replies.drop_last();
        let d = deploy::run(list, front);
        lemma_front(list, replies);
        lemma_course(list, front);
        lemma_course(list, replies);
        lemma_running(list, front, before);
        if front.len() >= 3 {
            target_follows_the_record(list, front);
            target_follows_the_record(list, replies);
            assert(front[2] == replies[2]);
            let name = d.target->0.name;
            assert(before.remove(name).insert(name) =~= before.insert(name));
        }
    }
}

/// After a deployment that succeeded an application runs in the target slot, and
/// none in the slot that had the traffic, where that is another; in all other
/// slots it is as before.
pub proof fn success_leaves_the_target_running(
    list: Seq<SlotView>,
    replies: Seq<ReplyView>,
    before: Set<Seq<char>>,
)
    requires
        list.len() > 0,
        deploy::in_course(list, replies),
        deploy::run(list, replies).stage == Stage::Succeeded,
    ensures
        ({
            let d = deploy::run(list, replies);
            let with_target = before.insert(d.target->0.name);
            &&& d.target is Some
            &&& running(list, replies, before) == if deploy::moves(d) {
                with_target.remove(d.active->0)
            } else {
                with_target
            }
        }),
{
    let d = deploy::run(list, replies);
    deploy::first_failure_is_reported(list, replies);
    lemma_course(list, replies);
    lemma_running(list, replies, before);
    target_follows_the_record(list, replies);
}

// ---------------------------------------------------------------------------
// Two deployments
// ---------------------------------------------------------------------------

/// Deployments take turns: where a deployment succeeded and the next one, which
/// reads the record of the first, succeeds too, the traffic goes from the slot of
/// the first to the slot behind it, which is another one. The record then names
/// that slot, the file that Nginx includes names its port, and of the two slots
/// only the new one is left running.
///
/// `first` and `second` are the replies of the two deployments, `disk` is what
/// is on disk when the first switches the traffic, `between` when the second
/// reads the record, and `later` when it switches the traffic. Only the record
/// has to be left alone in between.
pub proof fn deployments_take_turns(
    list: Seq<SlotView>,
    runtime_dir: Seq<char>,
    path: Seq<char>,
    reload: Seq<char>,
    host: Seq<char>,
    parent: Option<Seq<char>>,
    tmp: Seq<char>,
    first: Seq<ReplyView>,
    second: Seq<ReplyView>,
    context: RenderContext<'_>,
    next: RenderContext<'_>,
    disk: Disk,
    between: Disk,
    later: Disk,
    recorded: Option<Seq<char>>,
    before: Set<Seq<char>>,
)
    requires
        list.len() > 1,
        slots::distinct(list),
        forall|i: int|
            0 <= i < list.len() ==> text::trimmed((#[trigger] list[i]).name) == list[i].name,
        switch_is_apart(runtime_dir, path),
        deploy::in_course(list, first),
        deploy::run(list, first).stage == Stage::Succeeded,
        context_of(deploy::run(list, first), context),
        deploy::in_course(list, second),
        deploy::run(list, second).stage == Stage::Succeeded,
        context_of(deploy::run(list, second), next),
        ({
            let switch = SwitchView::NginxProxyPassInclude { path, reload_command: reload, host };
            let slot_file = paths::below(runtime_dir, "active-slot"@);
            &&& switch::held(between, slot_file) == switch::held(
                deployed(disk, runtime_dir, switch, context, parent, tmp),
                slot_file,
            )
            &&& reads_as(between, slot_file, recorded)
        }),
        second[2] == ReplyView::Active(active_in(list, recorded)),
    ensures
        ({
            let switch = SwitchView::NginxProxyPassInclude { path, reload_command: reload, host };
            let old = deploy::run(list, first).target->0;
            let new = deploy::run(list, second).target->0;
            let end = deployed(later, runtime_dir, switch, next, parent, tmp);
            let target = template::rendered(
                host,
                next.artifact@,
                next.release@,
                new.port,
                new.name,
            );
            &&& active_in(list, recorded) == Some(old.name)
            &&& new == state::next_slot(list, Some(old.name))
            &&& new.name != old.name
            &&& reads_as(end, paths::below(runtime_dir, "active-slot"@), Some(new.name))
            &&& reads_as(end, path, Some(switch::proxy_pass_text(target, new.port)))
            &&& running(list, second, before) == before.insert(new.name).remove(old.name)
        }),
{
    let switch = SwitchView::NginxProxyPassInclude { path, reload_command: reload, host };
    let old = deploy::run(list, first).target->0;
    deploy::first_failure_is_reported(list, first);
    lemma_course(list, first);
    target_follows_the_record(list, first);
    deploy::first_failure_is_reported(list, second);
    lemma_course(list, second);
    target_follows_the_record(list, second);
    state::next_slot_is_listed(list, first[2]->Active_0);
    assert(state::has_slot(list, old.name));
    let i = choose|i: int| 0 <= i < list.len() && (#[trigger] list[i]).name == old.name;
    assert(text::trimmed(list[i].name) == list[i].name);
    success_is_on_disk(disk, runtime_dir, path, reload, host, context, parent, tmp);
    assert(recorded == Some(old.name)) by {
        vstd::utf8::encode_utf8_decode_utf8(old.name);
        if recorded is Some {
            vstd::utf8::encode_utf8_decode_utf8(recorded->0);
        }
    }
    state::recorded_slot_reads_back(list, old.name);
    state::next_slot_is_another(list, old.name);
    success_is_on_disk(later, runtime_dir, path, reload, host, next, parent, tmp);
    success_leaves_the_target_running(list, second, before);
}

} // verus!
