//! The course of a deployment: what is done in which order, and what is undone
//! where something fails.
use vstd::prelude::*;

use crate::config::AppConfig;
use crate::events::Phase;
use crate::failure::{ErrorKind, Failure, FailureView};
use crate::number;
use crate::slots;
use crate::slots::{SlotConfig, SlotView};
use crate::state;
use crate::text;

verus! {

// ---------------------------------------------------------------------------
// Stages
// ---------------------------------------------------------------------------

/// What is to be done next.
#[derive(Clone, Copy, Debug, PartialEq, Eq, Structural)]
pub enum Stage {
    /// Take the deployment semaphore.
    Lock,
    /// Bring the artifact among the releases.
    Import,
    /// Find out which slot has the traffic.
    ReadActive,
    /// Stop what runs in the target slot.
    StopTarget,
    /// Start the release in the target slot.
    Launch,
    /// Wait until it is ready.
    AwaitReady,
    /// Keep what the switch is.
    CaptureSwitch,
    /// Give the traffic to the target slot.
    Promote,
    /// Record that the target slot has the traffic.
    Record,
    /// Stop what runs in the slot that had the traffic.
    StopOld,
    /// Bring the switch back to what it was.
    RestoreSwitch,
    /// Stop what was started.
    StopLaunched,
    /// Put the release aside.
    Quarantine,
    /// The deployment succeeded.
    Succeeded,
    /// The deployment failed.
    Failed,
}

/// What came of it.
#[derive(Debug)]
pub enum DeployReply {
    /// It was done.
    Done,
    /// The artifact is now this release.
    Imported(String),
    /// This slot has the traffic.
    Active(Option<String>),
    /// It was not done.
    Failed(Failure),
}

/// What a [`DeployReply`] holds.
pub enum ReplyView {
    Done,
    Imported(Seq<char>),
    Active(Option<Seq<char>>),
    Failed(FailureView),
}

impl DeepView for DeployReply {
    type V = ReplyView;

    open spec fn deep_view(&self) -> ReplyView {
        match self {
            DeployReply::Done => ReplyView::Done,
            DeployReply::Imported(release) => ReplyView::Imported(release@),
            DeployReply::Active(slot) => ReplyView::Active(slot.deep_view()),
            DeployReply::Failed(failure) => ReplyView::Failed(failure.deep_view()),
        }
    }
}

/// A deployment on its course.
#[derive(Debug)]
pub struct Deployment {
    stage: Stage,
    locked: bool,
    release: Option<String>,
    active: Option<String>,
    target: Option<SlotConfig>,
    failure: Option<Failure>,
}

/// What a [`Deployment`] holds: what is to be done next, whether the semaphore
/// is held, the release, the slot that has the traffic, the slot that is to get
/// it, and why the deployment fails.
pub struct DeployView {
    pub stage: Stage,
    pub locked: bool,
    pub release: Option<Seq<char>>,
    pub active: Option<Seq<char>>,
    pub target: Option<SlotView>,
    pub failure: Option<FailureView>,
}

impl DeepView for Deployment {
    type V = DeployView;

    closed spec fn deep_view(&self) -> DeployView {
        DeployView {
            stage: self.stage,
            locked: self.locked,
            release: self.release.deep_view(),
            active: self.active.deep_view(),
            target: self.target.deep_view(),
            failure: self.failure.deep_view(),
        }
    }
}

/// The start of a deployment.
pub open spec fn start() -> DeployView {
    DeployView {
        stage: Stage::Lock,
        locked: false,
        release: None,
        active: None,
        target: None,
        failure: None,
    }
}

/// Whether a reply is one to what was done in a stage.
pub open spec fn replies_to(stage: Stage, reply: ReplyView) -> bool {
    match stage {
        Stage::Import => reply is Imported || reply is Failed,
        Stage::ReadActive => reply is Active || reply is Failed,
        Stage::Succeeded => false,
        Stage::Failed => false,
        _ => reply is Done || reply is Failed,
    }
}

/// The deployment where it fails at once.
pub open spec fn failed(d: DeployView, failure: FailureView) -> DeployView {
    DeployView { stage: Stage::Failed, failure: Some(failure), ..d }
}

/// Whether the traffic goes from one slot to another.
pub open spec fn moves(d: DeployView) -> bool {
    d.active is Some && d.target is Some && d.active->0 != d.target->0.name
}

/// The deployment after a reply. `list` are the slots of the configuration.
pub open spec fn after(d: DeployView, list: Seq<SlotView>, reply: ReplyView) -> DeployView {
    match (d.stage, reply) {
        (Stage::RestoreSwitch, _) => DeployView { stage: Stage::StopLaunched, ..d },
        (Stage::StopLaunched, _) => DeployView { stage: Stage::Quarantine, ..d },
        (Stage::Quarantine, _) => DeployView { stage: Stage::Failed, ..d },
        (Stage::AwaitReady, ReplyView::Failed(failure)) => DeployView {
            stage: Stage::StopLaunched,
            failure: Some(failure),
            ..d
        },
        (Stage::Promote, ReplyView::Failed(failure)) => DeployView {
            stage: Stage::RestoreSwitch,
            failure: Some(failure),
            ..d
        },
        (Stage::Record, ReplyView::Failed(failure)) => DeployView {
            stage: Stage::RestoreSwitch,
            failure: Some(failure),
            ..d
        },
        (_, ReplyView::Failed(failure)) => failed(d, failure),
        (Stage::Lock, _) => DeployView { stage: Stage::Import, locked: true, ..d },
        (Stage::Import, ReplyView::Imported(release)) => DeployView {
            stage: Stage::ReadActive,
            release: Some(release),
            ..d
        },
        (Stage::ReadActive, ReplyView::Active(active)) => if list.len() == 0 {
            failed(
                d,
                FailureView {
                    kind: ErrorKind::InvalidInput,
                    message: "at least one slot is required"@,
                },
            )
        } else {
            DeployView {
                stage: Stage::StopTarget,
                active,
                target: Some(state::next_slot(list, active)),
                ..d
            }
        },
        (Stage::StopTarget, _) => DeployView { stage: Stage::Launch, ..d },
        (Stage::Launch, _) => DeployView { stage: Stage::AwaitReady, ..d },
        (Stage::AwaitReady, _) => DeployView { stage: Stage::CaptureSwitch, ..d },
        (Stage::CaptureSwitch, _) => DeployView { stage: Stage::Promote, ..d },
        (Stage::Promote, _) => DeployView { stage: Stage::Record, ..d },
        (Stage::Record, _) => if moves(d) {
            DeployView { stage: Stage::StopOld, ..d }
        } else {
            DeployView { stage: Stage::Succeeded, ..d }
        },
        (Stage::StopOld, _) => DeployView { stage: Stage::Succeeded, ..d },
        _ => d,
    }
}

/// How a slot with the traffic is spoken of.
pub open spec fn active_text(name: Seq<char>, port: u16) -> Seq<char> {
    name + " active on port "@ + number::decimal(port as nat)
}

/// What is said to the user when a stage begins.
pub open spec fn announced(d: DeployView) -> Seq<Seq<char>> {
    match (d.stage, d.release, d.target) {
        (Stage::StopTarget, Some(release), Some(target)) => seq![
            "deploying "@ + release,
            "traffic: "@ + match d.active {
                Some(name) => slots::label(name),
                None => "none"@,
            } + " -> "@ + slots::label(target.name) + " on port "@ + number::decimal(
                target.port as nat,
            ),
        ],
        (Stage::Succeeded, _, Some(target)) => seq![
            "traffic switched: "@ + active_text(slots::label(target.name), target.port),
        ],
        _ => Seq::empty(),
    }
}

/// What is reported in the log when a stage begins. A deployment that did not
/// get the semaphore reports nothing.
pub open spec fn reported(d: DeployView) -> Option<(Phase, Seq<char>)> {
    match (d.stage, d.release, d.target, d.failure) {
        (Stage::Import, _, _, _) => Some((Phase::Started, "deployment started"@)),
        (Stage::ReadActive, Some(release), _, _) => Some((Phase::Imported, release)),
        (Stage::Launch, _, Some(target), _) => Some(
            (
                Phase::Launching,
                target.name + " on port "@ + number::decimal(target.port as nat),
            ),
        ),
        (Stage::AwaitReady, _, Some(target), _) => Some((Phase::Waiting, target.name)),
        (Stage::CaptureSwitch, _, Some(target), _) => Some((Phase::Ready, target.name)),
        (Stage::Promote, _, Some(target), _) => Some((Phase::Switching, target.name)),
        (Stage::Succeeded, _, Some(target), _) => Some(
            (Phase::Succeeded, active_text(target.name, target.port)),
        ),
        (Stage::Failed, _, _, Some(failure)) => if d.locked {
            Some((Phase::Failed, failure.message))
        } else {
            None
        },
        _ => None,
    }
}

fn write_active(name: &str, port: u16) -> (r: String)
    ensures
        r@ == active_text(name@, port),
{
    let digits = number::write_number(port as u64);
    let mut r = text::concat(name, " active on port ");
    r.append(digits.as_str());
    r
}

impl Deployment {
    /// The start of a deployment.
    pub fn new() -> (r: Deployment)
        ensures
            r.deep_view() == start(),
    {
        Deployment {
            stage: Stage::Lock,
            locked: false,
            release: None,
            active: None,
            target: None,
            failure: None,
        }
    }

    /// What is to be done next.
    pub fn stage(&self) -> (r: Stage)
        ensures
            r == self.deep_view().stage,
    {
        self.stage
    }

    /// The release.
    pub fn release(&self) -> (r: Option<&String>)
        ensures
            r.deep_view() == self.deep_view().release,
    {
        match &self.release {
            Some(release) => Some(release),
            None => None,
        }
    }

    /// The slot that had the traffic when the deployment began.
    pub fn active(&self) -> (r: Option<&String>)
        ensures
            r.deep_view() == self.deep_view().active,
    {
        match &self.active {
            Some(slot) => Some(slot),
            None => None,
        }
    }

    /// The slot that is to get the traffic.
    pub fn target(&self) -> (r: Option<&SlotConfig>)
        ensures
            r.deep_view() == self.deep_view().target,
    {
        match &self.target {
            Some(slot) => Some(slot),
            None => None,
        }
    }

    /// Why the deployment fails.
    pub fn failure(&self) -> (r: Option<&Failure>)
        ensures
            r.deep_view() == self.deep_view().failure,
    {
        match &self.failure {
            Some(failure) => Some(failure),
            None => None,
        }
    }

    /// Takes what came of what was done.
    pub fn reply(&mut self, config: &AppConfig, reply: DeployReply)
        requires
            replies_to(old(self).deep_view().stage, reply.deep_view()),
        ensures
            final(self).deep_view() == after(
                old(self).deep_view(),
                config.slots.deep_view(),
                reply.deep_view(),
            ),
    {
        let ghost list = config.slots.deep_view();
        assert(list.len() == config.slots.len());
        match self.stage {
            Stage::RestoreSwitch => {
                self.stage = Stage::StopLaunched;
                return;
            },
            Stage::StopLaunched => {
                self.stage = Stage::Quarantine;
                return;
            },
            Stage::Quarantine => {
                self.stage = Stage::Failed;
                return;
            },
            _ => {},
        }
        match reply {
            DeployReply::Failed(failure) => {
                self.stage = match self.stage {
                    Stage::AwaitReady => Stage::StopLaunched,
                    Stage::Promote => Stage::RestoreSwitch,
                    Stage::Record => Stage::RestoreSwitch,
                    _ => Stage::Failed,
                };
                self.failure = Some(failure);
            },
            DeployReply::Imported(release) => {
                self.stage = Stage::ReadActive;
                self.release = Some(release);
            },
            DeployReply::Active(active) => {
                if config.slots.len() == 0 {
                    self.stage = Stage::Failed;
                    self.failure = Some(
                        Failure::new(
                            ErrorKind::InvalidInput,
                            "at least one slot is required".to_owned(),
                        ),
                    );
                } else {
                    let target = match &active {
                        Some(name) => state::target_slot(config, Some(name.as_str())),
                        None => state::target_slot(config, None),
                    };
                    if let Ok(slot) = target {
                        self.stage = Stage::StopTarget;
                        self.active = active;
                        self.target = Some(slot);
                    }
                }
            },
            DeployReply::Done => {
                match self.stage {
                    Stage::Lock => {
                        self.stage = Stage::Import;
                        self.locked = true;
                    },
                    Stage::StopTarget => {
                        self.stage = Stage::Launch;
                    },
                    Stage::Launch => {
                        self.stage = Stage::AwaitReady;
                    },
                    Stage::AwaitReady => {
                        self.stage = Stage::CaptureSwitch;
                    },
                    Stage::CaptureSwitch => {
                        self.stage = Stage::Promote;
                    },
                    Stage::Promote => {
                        self.stage = Stage::Record;
                    },
                    Stage::Record => {
                        let moving = match (&self.active, &self.target) {
                            (Some(active), Some(target)) => {
                                !text::same(active.as_str(), target.name.as_str())
                            },
                            _ => false,
                        };
                        self.stage = if moving {
                            Stage::StopOld
                        } else {
                            Stage::Succeeded
                        };
                    },
                    Stage::StopOld => {
                        self.stage = Stage::Succeeded;
                    },
                    _ => {},
                }
            },
        }
    }

    /// What is said to the user when a stage begins.
    pub fn announcements(&self) -> (r: Vec<String>)
        ensures
            r.deep_view() == announced(self.deep_view()),
    {
        let mut r: Vec<String> = Vec::new();
        assert(r.deep_view() =~= Seq::empty());
        match (self.stage, &self.release, &self.target) {
            (Stage::StopTarget, Some(release), Some(target)) => {
                r.push(text::concat("deploying ", release.as_str()));
                let from = match &self.active {
                    Some(name) => slots::active_slot_label(Some(name.as_str())),
                    None => slots::active_slot_label(None),
                };
                let to = slots::slot_label(target.name.as_str());
                let port = number::write_number(target.port as u64);
                let mut line = text::concat("traffic: ", from.as_str());
                line.append(" -> ");
                line.append(to.as_str());
                line.append(" on port ");
                line.append(port.as_str());
                r.push(line);
                assert(r.deep_view() =~= announced(self.deep_view()));
            },
            (Stage::Succeeded, _, Some(target)) => {
                let label = slots::slot_label(target.name.as_str());
                let words = write_active(label.as_str(), target.port);
                r.push(text::concat("traffic switched: ", words.as_str()));
                assert(r.deep_view() =~= announced(self.deep_view()));
            },
            _ => {},
        }
        r
    }

    /// What is reported in the log when a stage begins.
    pub fn report(&self) -> (r: Option<(Phase, String)>)
        ensures
            match r {
                Some((phase, message)) => reported(self.deep_view()) == Some((phase, message@)),
                None => reported(self.deep_view()) is None,
            },
    {
        match (self.stage, &self.release, &self.target, &self.failure) {
            (Stage::Import, _, _, _) => Some((Phase::Started, "deployment started".to_owned())),
            (Stage::ReadActive, Some(release), _, _) => Some((Phase::Imported, release.clone())),
            (Stage::Launch, _, Some(target), _) => {
                let port = number::write_number(target.port as u64);
                let mut message = text::concat(target.name.as_str(), " on port ");
                message.append(port.as_str());
                Some((Phase::Launching, message))
            },
            (Stage::AwaitReady, _, Some(target), _) => Some((Phase::Waiting, target.name.clone())),
            (Stage::CaptureSwitch, _, Some(target), _) => Some((Phase::Ready, target.name.clone())),
            (Stage::Promote, _, Some(target), _) => Some((Phase::Switching, target.name.clone())),
            (Stage::Succeeded, _, Some(target), _) => Some(
                (Phase::Succeeded, write_active(target.name.as_str(), target.port)),
            ),
            (Stage::Failed, _, _, Some(failure)) => {
                if self.locked {
                    Some((Phase::Failed, failure.message.clone()))
                } else {
                    None
                }
            },
            _ => None,
        }
    }
}

// ---------------------------------------------------------------------------
// The course as a whole
// ---------------------------------------------------------------------------

/// The deployment after all replies.
pub open spec fn run(list: Seq<SlotView>, replies: Seq<ReplyView>) -> DeployView
    decreases replies.len(),
{
    if replies.len() == 0 {
        start()
    } else {
        after(run(list, replies.drop_last()), list, replies.last())
    }
}

/// The stages of the deployment, up to the one after all replies.
pub open spec fn stages(list: Seq<SlotView>, replies: Seq<ReplyView>) -> Seq<Stage>
    decreases replies.len(),
{
    if replies.len() == 0 {
        seq![Stage::Lock]
    } else {
        stages(list, replies.drop_last()).push(run(list, replies).stage)
    }
}

/// Whether every reply is one to what was done.
pub open spec fn in_course(list: Seq<SlotView>, replies: Seq<ReplyView>) -> bool
    decreases replies.len(),
{
    replies.len() == 0 || {
        &&& in_course(list, replies.drop_last())
        &&& replies_to(run(list, replies.drop_last()).stage, replies.last())
    }
}

/// The index of the first reply that says that something was not done.
pub open spec fn first_failure(replies: Seq<ReplyView>) -> int
    decreases replies.len(),
{
    if replies.len() == 0 {
        0
    } else {
        let k = first_failure(replies.drop_last());
        if k < replies.len() - 1 || replies.last() is Failed {
            k
        } else {
            replies.len() as int
        }
    }
}

/// The stages of a deployment in which nothing fails.
pub open spec fn good_course(moves: bool) -> Seq<Stage> {
    let common = seq![
        Stage::Lock,
        Stage::Import,
        Stage::ReadActive,
        Stage::StopTarget,
        Stage::Launch,
        Stage::AwaitReady,
        Stage::CaptureSwitch,
        Stage::Promote,
        Stage::Record,
    ];
    if moves {
        common.push(Stage::StopOld).push(Stage::Succeeded)
    } else {
        common.push(Stage::Succeeded)
    }
}

/// What follows where a stage fails: what was started is stopped and put aside,
/// and once the traffic may have been given to it, the switch is brought back
/// first.
pub open spec fn clean_up(stage: Stage) -> Seq<Stage> {
    match stage {
        Stage::AwaitReady => seq![Stage::StopLaunched, Stage::Quarantine, Stage::Failed],
        Stage::Promote => seq![
            Stage::RestoreSwitch,
            Stage::StopLaunched,
            Stage::Quarantine,
            Stage::Failed,
        ],
        Stage::Record => seq![
            Stage::RestoreSwitch,
            Stage::StopLaunched,
            Stage::Quarantine,
            Stage::Failed,
        ],
        _ => seq![Stage::Failed],
    }
}

/// The stages of a deployment for the replies that came: those of a deployment
/// in which nothing fails, up to the first failure, and then the clean-up.
pub open spec fn script(moves: bool, replies: Seq<ReplyView>) -> Seq<Stage> {
    let n = replies.len() as int;
    let k = first_failure(replies);
    if k == n {
        good_course(moves).take(n + 1)
    } else {
        good_course(moves).take(k + 1) + clean_up(good_course(moves)[k]).take(n - k)
    }
}

/// The first failure is one, and no reply before it is.
pub proof fn first_failure_is_the_first(replies: Seq<ReplyView>)
    ensures
        0 <= first_failure(replies) <= replies.len(),
        first_failure(replies) < replies.len() ==> replies[first_failure(replies)] is Failed,
        forall|j: int| 0 <= j < first_failure(replies) ==> !(#[trigger] replies[j] is Failed),
    decreases replies.len(),
{
    if replies.len() > 0 {
        first_failure_is_the_first(replies.drop_last());
        let k = first_failure(replies.drop_last());
        assert forall|j: int| 0 <= j < first_failure(replies) implies !(
        #[trigger] replies[j] is Failed) by {
            if j < k {
                assert(!(replies.drop_last()[j] is Failed));
            }
        }
    }
}

/// A deployment keeps to its script: whatever the replies are, its stages are
/// those of a deployment in which nothing fails, up to the first failure, and
/// then the clean-up, which goes on whatever comes of it.
#[verifier::spinoff_prover]
#[verifier::rlimit(40)]
pub proof fn deployment_keeps_to_the_script(list: Seq<SlotView>, replies: Seq<ReplyView>)
    requires
        list.len() > 0,
        in_course(list, replies),
    ensures
        ({
            let course = good_course(moves(run(list, replies)));
            let k = first_failure(replies);
            &&& k < course.len()
            &&& k < replies.len() ==> replies.len() - k <= clean_up(course[k]).len()
            &&& stages(list, replies) == script(moves(run(list, replies)), replies)
            &&& stages(list, replies).last() == run(list, replies).stage
            &&& k < replies.len() ==> run(list, replies).failure == Some(replies[k]->Failed_0)
            &&& k == replies.len() ==> run(list, replies).failure is None
            &&& replies.len() >= 3 && k >= 3 ==> run(list, replies).target is Some
            &&& run(list, replies).locked == (replies.len() > 0 && k > 0)
        }),
    decreases replies.len(),
{
    let d = run(list, replies);
    let k = first_failure(replies);
    first_failure_is_the_first(replies);
    if replies.len() == 0 {
        assert(good_course(moves(d)).take(1) =~= seq![Stage::Lock]);
    } else {
        let front = replies.drop_last();
        let n = front.len() as int;
        let r = replies.last();
        let before = run(list, front);
        deployment_keeps_to_the_script(list, front);
        first_failure_is_the_first(front);
        let j = first_failure(front);
        let old_course = good_course(moves(before));
        let course = good_course(moves(d));
        assert(d == after(before, list, r));
        assert(stages(list, front).last() == before.stage);
        assert(old_course.take(3) =~= course.take(3));
        if j < n {
            // The clean-up goes on.
            let steps = clean_up(old_course[j]);
            let done = old_course.take(j + 1) + steps.take(n - j);
            assert(done.last() == steps[n - j - 1]);
            assert(k == j);
            assert(moves(d) == moves(before));
            assert(d.failure == before.failure);
            assert(d.stage == steps[n - j]);
            assert(script(moves(d), replies) =~= done.push(d.stage));
        } else {
            assert(old_course.take(n + 1).last() == old_course[n]);
            assert(before.stage == old_course[n]);
            if r is Failed {
                assert(k == n);
                assert(moves(d) == moves(before));
                let steps = clean_up(course[n]);
                assert(d.stage == steps[0]);
                assert(script(moves(d), replies) =~= course.take(n + 1).push(d.stage));
            } else {
                assert(k == n + 1);
                if n >= 3 {
                    assert(moves(d) == moves(before));
                }
                assert(course.take(n + 1) =~= old_course.take(n + 1));
                assert(d.stage == course[n + 1]);
                assert(script(moves(d), replies) =~= course.take(n + 1).push(d.stage));
            }
        }
    }
}

/// The traffic is given to the target slot only where the application in it was
/// waited for and found ready, and the switch as it was is kept.
pub proof fn traffic_follows_readiness(list: Seq<SlotView>, replies: Seq<ReplyView>)
    requires
        list.len() > 0,
        in_course(list, replies),
        stages(list, replies).contains(Stage::Promote),
    ensures
        stages(list, replies)[5] == Stage::AwaitReady,
        replies[5] is Done,
        stages(list, replies)[6] == Stage::CaptureSwitch,
        replies[6] is Done,
        stages(list, replies)[7] == Stage::Promote,
{
    lemma_where(list, replies, Stage::Promote, 7);
    lemma_done(list, replies, 5);
    lemma_done(list, replies, 6);
}

/// The record is changed only where the traffic was given to the target slot.
pub proof fn record_follows_traffic(list: Seq<SlotView>, replies: Seq<ReplyView>)
    requires
        list.len() > 0,
        in_course(list, replies),
        stages(list, replies).contains(Stage::Record),
    ensures
        stages(list, replies)[7] == Stage::Promote,
        replies[7] is Done,
        stages(list, replies)[8] == Stage::Record,
{
    lemma_where(list, replies, Stage::Record, 8);
    lemma_done(list, replies, 7);
}

/// What runs in the slot that had the traffic is stopped only where the record
/// says that the target slot has it.
pub proof fn old_slot_outlives_the_switch(list: Seq<SlotView>, replies: Seq<ReplyView>)
    requires
        list.len() > 0,
        in_course(list, replies),
        stages(list, replies).contains(Stage::StopOld),
    ensures
        stages(list, replies)[8] == Stage::Record,
        replies[8] is Done,
        stages(list, replies)[9] == Stage::StopOld,
{
    lemma_where(list, replies, Stage::StopOld, 9);
    lemma_done(list, replies, 8);
}

/// A deployment that failed before it had the record changed leaves the slot
/// that had the traffic running, and where it may have given the traffic away
/// it brings the switch back.
pub proof fn failure_leaves_the_old_slot(list: Seq<SlotView>, replies: Seq<ReplyView>)
    requires
        list.len() > 0,
        in_course(list, replies),
        run(list, replies).stage == Stage::Failed,
        first_failure(replies) <= 8,
    ensures
        !stages(list, replies).contains(Stage::StopOld),
        first_failure(replies) >= 7 ==> stages(list, replies).contains(Stage::RestoreSwitch),
        stages(list, replies).contains(Stage::Promote) ==> stages(list, replies).contains(
            Stage::StopLaunched,
        ) && stages(list, replies).contains(Stage::Quarantine),
{
    deployment_keeps_to_the_script(list, replies);
    first_failure_is_the_first(replies);
    let s = stages(list, replies);
    let n = replies.len() as int;
    let k = first_failure(replies);
    let course = good_course(moves(run(list, replies)));
    let steps = clean_up(course[k]);
    assert(s.last() == Stage::Failed);
    if s.contains(Stage::StopOld) {
        let i = choose|i: int| 0 <= i < s.len() && s[i] == Stage::StopOld;
        if i <= k {
            assert(s[i] == course[i]);
        } else {
            assert(s[i] == steps[i - k - 1]);
        }
    }
    assert(n - k == steps.len()) by {
        assert(s.last() == steps[n - k - 1]);
    }
    if k >= 7 {
        assert(s[k + 1] == steps[0]);
        assert(s[k + 2] == steps[1]);
        assert(s[k + 3] == steps[2]);
    } else if s.contains(Stage::Promote) {
        let i = choose|i: int| 0 <= i < s.len() && s[i] == Stage::Promote;
        if i <= k {
            assert(s[i] == course[i]);
        } else {
            assert(s[i] == steps[i - k - 1]);
        }
    }
}

/// A deployment succeeds where nothing fails, and fails with the first failure
/// otherwise, whatever comes of the clean-up.
pub proof fn first_failure_is_reported(list: Seq<SlotView>, replies: Seq<ReplyView>)
    requires
        list.len() > 0,
        in_course(list, replies),
    ensures
        run(list, replies).stage == Stage::Succeeded ==> first_failure(replies) == replies.len(),
        run(list, replies).stage == Stage::Failed ==> {
            &&& first_failure(replies) < replies.len()
            &&& run(list, replies).failure == Some(replies[first_failure(replies)]->Failed_0)
        },
{
    deployment_keeps_to_the_script(list, replies);
    first_failure_is_the_first(replies);
    let s = stages(list, replies);
    let n = replies.len() as int;
    let k = first_failure(replies);
    let course = good_course(moves(run(list, replies)));
    if k < n {
        assert(s.last() == clean_up(course[k])[n - k - 1]);
    } else {
        assert(s.last() == course[n]);
    }
}

/// A deployment is over after at most thirteen replies.
pub proof fn deployment_ends(list: Seq<SlotView>, replies: Seq<ReplyView>)
    requires
        list.len() > 0,
        in_course(list, replies),
    ensures
        replies.len() <= 13,
{
    deployment_keeps_to_the_script(list, replies);
    first_failure_is_the_first(replies);
}

/// A deployment that did not get the semaphore ends at once, and reports
/// nothing.
pub proof fn blocked_deployment_reports_nothing(list: Seq<SlotView>, replies: Seq<ReplyView>)
    requires
        list.len() > 0,
        in_course(list, replies),
        replies.len() > 0,
        replies[0] is Failed,
    ensures
        replies.len() == 1,
        run(list, replies).stage == Stage::Failed,
        reported(run(list, replies)) is None,
{
    deployment_keeps_to_the_script(list, replies);
    first_failure_is_the_first(replies);
    assert(first_failure(replies) == 0);
    let course = good_course(moves(run(list, replies)));
    assert(clean_up(course[0]).len() == 1);
    assert(stages(list, replies).last() == clean_up(course[0])[0]);
}

proof fn lemma_on_course(list: Seq<SlotView>, replies: Seq<ReplyView>, i: int)
    requires
        list.len() > 0,
        in_course(list, replies),
        0 <= i <= first_failure(replies),
    ensures
        stages(list, replies).len() == replies.len() + 1,
        first_failure(replies) <= replies.len(),
        i < good_course(moves(run(list, replies))).len(),
        stages(list, replies)[i] == good_course(moves(run(list, replies)))[i],
{
    deployment_keeps_to_the_script(list, replies);
    lemma_stages_len(list, replies);
    first_failure_is_the_first(replies);
}

proof fn lemma_off_course(list: Seq<SlotView>, replies: Seq<ReplyView>, i: int)
    requires
        list.len() > 0,
        in_course(list, replies),
        first_failure(replies) < i <= replies.len(),
    ensures
        stages(list, replies).len() == replies.len() + 1,
        stages(list, replies)[i] != Stage::Promote,
        stages(list, replies)[i] != Stage::Record,
        stages(list, replies)[i] != Stage::StopOld,
{
    deployment_keeps_to_the_script(list, replies);
    lemma_stages_len(list, replies);
    first_failure_is_the_first(replies);
    let k = first_failure(replies);
    let steps = clean_up(good_course(moves(run(list, replies)))[k]);
    assert(stages(list, replies)[i] == steps[i - k - 1]);
}

proof fn lemma_where(list: Seq<SlotView>, replies: Seq<ReplyView>, stage: Stage, at: int)
    requires
        list.len() > 0,
        in_course(list, replies),
        stages(list, replies).contains(stage),
        stage == Stage::Promote && at == 7 || stage == Stage::Record && at == 8 || stage
            == Stage::StopOld && at == 9,
    ensures
        at <= first_failure(replies) <= replies.len(),
        stages(list, replies)[at] == stage,
{
    let s = stages(list, replies);
    lemma_stages_len(list, replies);
    let i = choose|i: int| 0 <= i < s.len() && s[i] == stage;
    if i <= first_failure(replies) {
        lemma_on_course(list, replies, i);
    } else {
        lemma_off_course(list, replies, i);
    }
}

proof fn lemma_done(list: Seq<SlotView>, replies: Seq<ReplyView>, i: int)
    requires
        list.len() > 0,
        in_course(list, replies),
        3 <= i < first_failure(replies),
    ensures
        stages(list, replies)[i] == good_course(moves(run(list, replies)))[i],
        replies[i] is Done,
{
    lemma_on_course(list, replies, i);
    lemma_replies(list, replies, i);
    first_failure_is_the_first(replies);
}

proof fn lemma_replies(list: Seq<SlotView>, replies: Seq<ReplyView>, i: int)
    requires
        in_course(list, replies),
        0 <= i < replies.len(),
    ensures
        stages(list, replies).len() == replies.len() + 1,
        replies_to(stages(list, replies)[i], replies[i]),
    decreases replies.len(),
{
    let front = replies.drop_last();
    lemma_stages_len(list, replies);
    lemma_stages_len(list, front);
    if i < front.len() {
        lemma_replies(list, front, i);
        assert(stages(list, replies)[i] == stages(list, front)[i]);
    } else {
        assert(stages(list, replies)[i] == stages(list, front).last());
        assert(stages(list, front).last() == run(list, front).stage);
    }
}

proof fn lemma_stages_len(list: Seq<SlotView>, replies: Seq<ReplyView>)
    ensures
        stages(list, replies).len() == replies.len() + 1,
        stages(list, replies).last() == run(list, replies).stage,
    decreases replies.len(),
{
    if replies.len() > 0 {
        lemma_stages_len(list, replies.drop_last());
    }
}

// ---------------------------------------------------------------------------
// What the log tells
// ---------------------------------------------------------------------------

/// The phases that are reported in the course of a deployment.
pub open spec fn told(list: Seq<SlotView>, replies: Seq<ReplyView>) -> Seq<Phase>
    decreases replies.len(),
{
    let front = if replies.len() == 0 {
        Seq::empty()
    } else {
        told(list, replies.drop_last())
    };
    match reported(run(list, replies)) {
        Some((phase, _)) => front.push(phase),
        None => front,
    }
}

/// The phase that the beginning of a stage is reported as.
pub open spec fn stage_phase(stage: Stage) -> Option<Phase> {
    match stage {
        Stage::Import => Some(Phase::Started),
        Stage::ReadActive => Some(Phase::Imported),
        Stage::Launch => Some(Phase::Launching),
        Stage::AwaitReady => Some(Phase::Waiting),
        Stage::CaptureSwitch => Some(Phase::Ready),
        Stage::Promote => Some(Phase::Switching),
        Stage::Succeeded => Some(Phase::Succeeded),
        Stage::Failed => Some(Phase::Failed),
        _ => None,
    }
}

/// The phases that stages are reported as.
pub open spec fn stage_phases(list: Seq<Stage>) -> Seq<Phase>
    decreases list.len(),
{
    if list.len() == 0 {
        Seq::empty()
    } else {
        match stage_phase(list.last()) {
            Some(phase) => stage_phases(list.drop_last()).push(phase),
            None => stage_phases(list.drop_last()),
        }
    }
}

spec fn sound(d: DeployView) -> bool {
    match d.stage {
        Stage::Lock => true,
        Stage::Import => d.locked,
        Stage::ReadActive => d.locked && d.release is Some,
        Stage::Failed => d.failure is Some,
        _ => d.locked && d.release is Some && d.target is Some && ((d.stage == Stage::RestoreSwitch
            || d.stage == Stage::StopLaunched || d.stage == Stage::Quarantine) ==> d.failure is Some),
    }
}

proof fn lemma_sound(list: Seq<SlotView>, replies: Seq<ReplyView>)
    requires
        in_course(list, replies),
    ensures
        sound(run(list, replies)),
        run(list, replies).locked == (replies.len() > 0 && !(replies[0] is Failed)),
    decreases replies.len(),
{
    if replies.len() > 0 {
        lemma_sound(list, replies.drop_last());
        if replies.len() > 1 {
            assert(replies.drop_last()[0] == replies[0]);
        }
    }
}

/// The log tells the course of a deployment that got the semaphore: each phase
/// when its stage begins, and in that order.
pub proof fn log_tells_the_course(list: Seq<SlotView>, replies: Seq<ReplyView>)
    requires
        in_course(list, replies),
        replies.len() > 0 ==> !(replies[0] is Failed),
    ensures
        told(list, replies) == stage_phases(stages(list, replies)),
    decreases replies.len(),
{
    lemma_sound(list, replies);
    if replies.len() > 0 {
        let front = replies.drop_last();
        if front.len() > 0 {
            assert(front[0] == replies[0]);
        }
        log_tells_the_course(list, front);
        assert(stages(list, replies).drop_last() =~= stages(list, front));
    } else {
        assert(stages(list, replies).drop_last() =~= Seq::empty());
        assert(stage_phases(Seq::empty()) =~= Seq::empty());
    }
}

/// A deployment that succeeds is told in full.
pub proof fn success_is_told_in_full(list: Seq<SlotView>, replies: Seq<ReplyView>)
    requires
        list.len() > 0,
        in_course(list, replies),
        run(list, replies).stage == Stage::Succeeded,
    ensures
        told(list, replies) == seq![
            Phase::Started,
            Phase::Imported,
            Phase::Launching,
            Phase::Waiting,
            Phase::Ready,
            Phase::Switching,
            Phase::Succeeded,
        ],
{
    first_failure_is_reported(list, replies);
    first_failure_is_the_first(replies);
    deployment_keeps_to_the_script(list, replies);
    lemma_stages_len(list, replies);
    let n = replies.len() as int;
    let m = moves(run(list, replies));
    let course = good_course(m);
    assert(stages(list, replies) =~= course.take(n + 1));
    assert(course[n] == Stage::Succeeded);
    assert(n + 1 == course.len());
    assert(course.take(n + 1) =~= course);
    if n > 0 {
        assert(!(replies[0] is Failed));
    }
    log_tells_the_course(list, replies);
    lemma_course_phases(m);
}

proof fn lemma_course_phases(m: bool)
    ensures
        stage_phases(good_course(m)) == seq![
            Phase::Started,
            Phase::Imported,
            Phase::Launching,
            Phase::Waiting,
            Phase::Ready,
            Phase::Switching,
            Phase::Succeeded,
        ],
{
    let c = good_course(m);
    let n = c.len() as int;
    assert(c.take(0) =~= Seq::empty());
    assert(stage_phases(c.take(0)) =~= Seq::empty());
    assert(c.take(1).drop_last() =~= c.take(0));
    assert(stage_phases(c.take(1)) =~= Seq::empty());
    assert(c.take(2).drop_last() =~= c.take(1));
    assert(stage_phases(c.take(2)) =~= seq![Phase::Started]);
    assert(c.take(3).drop_last() =~= c.take(2));
    let two = seq![Phase::Started, Phase::Imported];
    assert(stage_phases(c.take(3)) =~= two);
    assert(c.take(4).drop_last() =~= c.take(3));
    assert(stage_phases(c.take(4)) =~= two);
    assert(c.take(5).drop_last() =~= c.take(4));
    let three = two.push(Phase::Launching);
    assert(stage_phases(c.take(5)) =~= three);
    assert(c.take(6).drop_last() =~= c.take(5));
    let four = three.push(Phase::Waiting);
    assert(stage_phases(c.take(6)) =~= four);
    assert(c.take(7).drop_last() =~= c.take(6));
    let five = four.push(Phase::Ready);
    assert(stage_phases(c.take(7)) =~= five);
    assert(c.take(8).drop_last() =~= c.take(7));
    let six = five.push(Phase::Switching);
    assert(stage_phases(c.take(8)) =~= six);
    assert(c.take(9).drop_last() =~= c.take(8));
    assert(stage_phases(c.take(9)) =~= six);
    assert(c.take(10).drop_last() =~= c.take(9));
    let seven = six.push(Phase::Succeeded);
    if m {
        assert(stage_phases(c.take(10)) =~= six);
        assert(c.take(11).drop_last() =~= c.take(10));
        assert(stage_phases(c.take(11)) =~= seven);
    } else {
        assert(stage_phases(c.take(10)) =~= seven);
    }
    assert(c.take(n) =~= c);
}

// ---------------------------------------------------------------------------
// The course in full
// ---------------------------------------------------------------------------

/// A deployment that succeeds takes these steps, each once and in this order;
/// the slot that had the traffic is stopped at the end, where it is another one
/// than the target.
pub proof fn success_takes_every_step(list: Seq<SlotView>, replies: Seq<ReplyView>)
    requires
        list.len() > 0,
        in_course(list, replies),
        run(list, replies).stage == Stage::Succeeded,
    ensures
        ({
            let d = run(list, replies);
            let common = seq![
                Stage::Lock,
                Stage::Import,
                Stage::ReadActive,
                Stage::StopTarget,
                Stage::Launch,
                Stage::AwaitReady,
                Stage::CaptureSwitch,
                Stage::Promote,
                Stage::Record,
            ];
            &&& d.target is Some
            &&& stages(list, replies) == if d.active is Some && d.active->0 != d.target->0.name {
                common + seq![Stage::StopOld, Stage::Succeeded]
            } else {
                common + seq![Stage::Succeeded]
            }
        }),
{
    deployment_keeps_to_the_script(list, replies);
    first_failure_is_the_first(replies);
    let d = run(list, replies);
    let course = good_course(moves(d));
    let n = replies.len() as int;
    let common = seq![
        Stage::Lock,
        Stage::Import,
        Stage::ReadActive,
        Stage::StopTarget,
        Stage::Launch,
        Stage::AwaitReady,
        Stage::CaptureSwitch,
        Stage::Promote,
        Stage::Record,
    ];
    first_failure_is_reported(list, replies);
    assert(first_failure(replies) == n);
    assert(stages(list, replies).last() == course[n]);
    assert(n == course.len() - 1);
    assert(course.take(n + 1) =~= course);
    assert(common + seq![Stage::StopOld, Stage::Succeeded] =~= common.push(Stage::StopOld).push(
        Stage::Succeeded,
    ));
    assert(common + seq![Stage::Succeeded] =~= common.push(Stage::Succeeded));
}

/// A deployment that fails takes the steps up to the one that failed. Where the
/// application was launched and did not become ready, it is stopped, and the
/// artifact is put aside; where the traffic may have been given to it, the switch
/// is brought back before that. Any other failure is the end.
pub proof fn failure_is_cleaned_up(list: Seq<SlotView>, replies: Seq<ReplyView>)
    requires
        list.len() > 0,
        in_course(list, replies),
        run(list, replies).stage == Stage::Failed,
    ensures
        ({
            let k = first_failure(replies);
            let all = stages(list, replies);
            let steps = seq![
                Stage::Lock,
                Stage::Import,
                Stage::ReadActive,
                Stage::StopTarget,
                Stage::Launch,
                Stage::AwaitReady,
                Stage::CaptureSwitch,
                Stage::Promote,
                Stage::Record,
                Stage::StopOld,
            ];
            &&& 0 <= k < steps.len()
            &&& all == steps.take(k + 1) + if steps[k] == Stage::AwaitReady {
                seq![Stage::StopLaunched, Stage::Quarantine, Stage::Failed]
            } else if steps[k] == Stage::Promote || steps[k] == Stage::Record {
                seq![
                    Stage::RestoreSwitch,
                    Stage::StopLaunched,
                    Stage::Quarantine,
                    Stage::Failed,
                ]
            } else {
                seq![Stage::Failed]
            }
        }),
{
    deployment_keeps_to_the_script(list, replies);
    first_failure_is_the_first(replies);
    first_failure_is_reported(list, replies);
    let k = first_failure(replies);
    let n = replies.len() as int;
    let course = good_course(moves(run(list, replies)));
    let steps = seq![
        Stage::Lock,
        Stage::Import,
        Stage::ReadActive,
        Stage::StopTarget,
        Stage::Launch,
        Stage::AwaitReady,
        Stage::CaptureSwitch,
        Stage::Promote,
        Stage::Record,
        Stage::StopOld,
    ];
    let ending = clean_up(course[k]);
    lemma_nothing_follows_the_end(list, replies, k);
    assert(course.take(k + 1) =~= steps.take(k + 1));
    assert(course[k] == steps[k]);
    assert(stages(list, replies).last() == ending[n - k - 1]);
    assert(n - k == ending.len());
    assert(ending.take(n - k) =~= ending);
}

proof fn lemma_nothing_follows_the_end(list: Seq<SlotView>, replies: Seq<ReplyView>, k: int)
    requires
        list.len() > 0,
        in_course(list, replies),
        k == first_failure(replies),
        k < replies.len(),
    ensures
        k < good_course(moves(run(list, replies))).len() - 1,
{
    let course = good_course(moves(run(list, replies)));
    deployment_keeps_to_the_script(list, replies);
    first_failure_is_the_first(replies);
    if k == course.len() - 1 {
        let front = replies.take(k);
        let more = replies.take(k + 1);
        lemma_course_of_the_front(list, replies, k + 1);
        assert(more.drop_last() =~= front);
        lemma_stages_of_the_front(list, replies, k);
        assert(stages(list, replies)[k] == course[k]);
        assert(run(list, front).stage == Stage::Succeeded);
    }
}

proof fn lemma_course_of_the_front(list: Seq<SlotView>, replies: Seq<ReplyView>, n: int)
    requires
        in_course(list, replies),
        0 <= n <= replies.len(),
    ensures
        in_course(list, replies.take(n)),
    decreases replies.len(),
{
    if n == replies.len() {
        assert(replies.take(n) =~= replies);
    } else {
        assert(replies.drop_last().take(n) =~= replies.take(n));
        lemma_course_of_the_front(list, replies.drop_last(), n);
    }
}

proof fn lemma_stages_of_the_front(list: Seq<SlotView>, replies: Seq<ReplyView>, n: int)
    requires
        0 <= n <= replies.len(),
    ensures
        stages(list, replies).len() == replies.len() + 1,
        stages(list, replies)[n] == run(list, replies.take(n)).stage,
    decreases replies.len(),
{
    if replies.len() == 0 {
        assert(replies.take(n) =~= replies);
    } else if n == replies.len() {
        lemma_stages_of_the_front(list, replies.drop_last(), n - 1);
        assert(replies.take(n) =~= replies);
    } else {
        lemma_stages_of_the_front(list, replies.drop_last(), n);
        assert(replies.drop_last().take(n) =~= replies.take(n));
    }
}

/// The release that is deployed is the one that was imported.
pub proof fn imported_release_is_deployed(list: Seq<SlotView>, replies: Seq<ReplyView>)
    requires
        in_course(list, replies),
        replies.len() >= 2,
        !(replies[0] is Failed),
        !(replies[1] is Failed),
    ensures
        replies[1] is Imported,
        run(list, replies).release == Some(replies[1]->Imported_0),
    decreases replies.len(),
{
    reveal_with_fuel(run, 3);
    reveal_with_fuel(in_course, 3);
    if replies.len() == 2 {
        let one = replies.drop_last();
        assert(one.drop_last() =~= Seq::empty());
        assert(one.last() == replies[0]);
        assert(replies.last() == replies[1]);
    } else {
        imported_release_is_deployed(list, replies.drop_last());
    }
}

/// A configuration without slots has nothing to deploy to: the deployment fails
/// when the target is to be chosen, and says why.
pub proof fn deployment_needs_a_slot(d: DeployView, active: Option<Seq<char>>)
    requires
        d.stage == Stage::ReadActive,
    ensures
        after(d, Seq::empty(), ReplyView::Active(active)).stage == Stage::Failed,
        after(d, Seq::empty(), ReplyView::Active(active)).failure == Some(
            FailureView {
                kind: ErrorKind::InvalidInput,
                message: "at least one slot is required"@,
            },
        ),
{
}

/// The events of a deployment say what happened: the release that was imported,
/// the slot and the port that it is launched on, the slot that is waited for and
/// switched to, and at the end the slot that is active, or the failure.
pub proof fn events_say_what_happened(
    d: DeployView,
    release: Seq<char>,
    target: SlotView,
    failure: FailureView,
)
    requires
        d.release == Some(release),
        d.target == Some(target),
        d.failure == Some(failure),
    ensures
        d.stage == Stage::Import ==> reported(d) == Some((Phase::Started, "deployment started"@)),
        d.stage == Stage::ReadActive ==> reported(d) == Some((Phase::Imported, release)),
        d.stage == Stage::Launch ==> reported(d) == Some(
            (
                Phase::Launching,
                target.name + " on port "@ + number::decimal(target.port as nat),
            ),
        ),
        d.stage == Stage::AwaitReady ==> reported(d) == Some((Phase::Waiting, target.name)),
        d.stage == Stage::CaptureSwitch ==> reported(d) == Some((Phase::Ready, target.name)),
        d.stage == Stage::Promote ==> reported(d) == Some((Phase::Switching, target.name)),
        d.stage == Stage::Succeeded ==> reported(d) == Some(
            (
                Phase::Succeeded,
                target.name + " active on port "@ + number::decimal(target.port as nat),
            ),
        ),
        d.stage == Stage::Failed && d.locked ==> reported(d) == Some(
            (Phase::Failed, failure.message),
        ),
        d.stage == Stage::Failed && !d.locked ==> reported(d) is None,
{
}

/// A deployment that got the semaphore and failed tells so at the end, with the
/// first failure.
pub proof fn failure_is_told(list: Seq<SlotView>, replies: Seq<ReplyView>)
    requires
        list.len() > 0,
        in_course(list, replies),
        run(list, replies).stage == Stage::Failed,
        !(replies[0] is Failed),
    ensures
        reported(run(list, replies)) == Some(
            (Phase::Failed, replies[first_failure(replies)]->Failed_0.message),
        ),
        told(list, replies).last() == Phase::Failed,
        told(list, replies)[0] == Phase::Started,
{
    deployment_keeps_to_the_script(list, replies);
    first_failure_is_the_first(replies);
    first_failure_is_reported(list, replies);
    lemma_first_told(list, replies);
}

proof fn lemma_first_told(list: Seq<SlotView>, replies: Seq<ReplyView>)
    requires
        replies.len() > 0,
        !(replies[0] is Failed),
    ensures
        told(list, replies).len() > 0,
        told(list, replies)[0] == Phase::Started,
    decreases replies.len(),
{
    reveal_with_fuel(run, 2);
    reveal_with_fuel(told, 2);
    if replies.len() == 1 {
        assert(replies.drop_last() =~= Seq::empty());
    } else {
        lemma_first_told(list, replies.drop_last());
    }
}

/// The user is told which release is deployed, which slot the traffic comes from
/// and which slot and port it goes to; and at the end that it was switched. In
/// between nothing is said.
pub proof fn user_is_told_where_the_traffic_goes(
    d: DeployView,
    release: Seq<char>,
    target: SlotView,
)
    requires
        d.release == Some(release),
        d.target == Some(target),
    ensures
        d.stage == Stage::StopTarget ==> {
            &&& announced(d).len() == 2
            &&& announced(d)[0] == "deploying "@ + release
            &&& text::contains_text(
                announced(d)[1],
                " -> "@ + slots::label(target.name) + " on port "@ + number::decimal(
                    target.port as nat,
                ),
            )
            &&& d.active matches Some(name) ==> text::starts(
                announced(d)[1],
                "traffic: "@ + slots::label(name) + " -> "@,
            )
            &&& d.active is None ==> text::starts(announced(d)[1], "traffic: none -> "@)
        },
        d.stage == Stage::Succeeded ==> {
            &&& announced(d).len() == 1
            &&& announced(d)[0] == "traffic switched: "@ + slots::label(target.name)
                + " active on port "@ + number::decimal(target.port as nat)
        },
        d.stage != Stage::StopTarget && d.stage != Stage::Succeeded ==> announced(d).len() == 0,
{
    let port = number::decimal(target.port as nat);
    if d.stage == Stage::StopTarget {
        let from = match d.active {
            Some(name) => slots::label(name),
            None => "none"@,
        };
        let to = slots::label(target.name);
        lemma_traffic_line("traffic: "@, from, " -> "@, to, " on port "@, port);
        assert("traffic: "@ + "none"@ + " -> "@ =~= "traffic: none -> "@) by {
            reveal_strlit("traffic: ");
            reveal_strlit("none");
            reveal_strlit(" -> ");
            reveal_strlit("traffic: none -> ");
        }
    }
    if d.stage == Stage::Succeeded {
        assert("traffic switched: "@ + (slots::label(target.name) + " active on port "@ + port)
            =~= "traffic switched: "@ + slots::label(target.name) + " active on port "@ + port);
    }
}

proof fn lemma_regrouped(a: Seq<char>, b: Seq<char>, c: Seq<char>, d: Seq<char>)
    ensures
        a + b + c + d == a + (b + c + d),
{
    assert(a + b + c + d =~= a + (b + c + d));
}

proof fn lemma_traffic_line(
    title: Seq<char>,
    from: Seq<char>,
    arrow: Seq<char>,
    to: Seq<char>,
    on: Seq<char>,
    port: Seq<char>,
)
    ensures
        text::starts(title + from + arrow + to + on + port, title + from + arrow),
        text::contains_text(title + from + arrow + to + on + port, arrow + to + on + port),
{
    let none = Seq::<char>::empty();
    let front = title + from;
    lemma_regrouped(front + arrow, to, on, port);
    text::text_occurs_where_it_stands(none, front + arrow, to + on + port);
    lemma_regrouped(front, arrow, to, on);
    lemma_regrouped(front, arrow + to + on, port, none);
    let goal = arrow + to + on + port;
    assert(goal + none =~= goal);
    assert(front + goal + none =~= front + goal);
    assert(front + (arrow + to + on) + port + none =~= front + (arrow + to + on) + port);
    text::text_occurs_where_it_stands(front, goal, none);
}

/// Every stage takes the reply that it asks for, or a failure; a deployment that
/// is over takes none.
pub proof fn every_stage_takes_its_reply(stage: Stage, reply: ReplyView)
    ensures
        stage == Stage::Succeeded || stage == Stage::Failed ==> !replies_to(stage, reply),
        stage != Stage::Succeeded && stage != Stage::Failed ==> {
            &&& reply is Failed ==> replies_to(stage, reply)
            &&& reply is Imported ==> (replies_to(stage, reply) <==> stage == Stage::Import)
            &&& reply is Active ==> (replies_to(stage, reply) <==> stage == Stage::ReadActive)
            &&& reply is Done ==> (replies_to(stage, reply) <==> stage != Stage::Import && stage
                != Stage::ReadActive)
        },
{
}

} // verus!
