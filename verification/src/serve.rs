//! The daemon: it looks into the inbox, and deploys what it finds there.
use vstd::prelude::*;

use crate::failure::{ErrorKind, Failure, FailureView};
use crate::text;

verus! {

/// What the daemon does next.
#[derive(Debug)]
pub enum ServeAction {
    /// Look for the next artifact.
    Look,
    /// Deploy an artifact.
    Deploy(String),
    /// Let the time between two looks pass.
    Sleep,
    /// Put an artifact aside, if it is still in the inbox.
    Quarantine(String),
    /// End.
    Stop(Failure),
}

/// What came of it.
#[derive(Debug)]
pub enum ServeReply {
    /// The next artifact, if there is one.
    Found(Result<Option<String>, Failure>),
    /// The artifact that was deployed, and what came of it.
    Deployed(String, Result<(), Failure>),
    Slept,
    Quarantined(Result<(), Failure>),
}

/// What a [`ServeAction`] holds.
pub enum ServeActionView {
    Look,
    Deploy(Seq<char>),
    Sleep,
    Quarantine(Seq<char>),
    Stop(FailureView),
}

impl DeepView for ServeAction {
    type V = ServeActionView;

    open spec fn deep_view(&self) -> ServeActionView {
        match self {
            ServeAction::Look => ServeActionView::Look,
            ServeAction::Deploy(artifact) => ServeActionView::Deploy(artifact@),
            ServeAction::Sleep => ServeActionView::Sleep,
            ServeAction::Quarantine(artifact) => ServeActionView::Quarantine(artifact@),
            ServeAction::Stop(failure) => ServeActionView::Stop(failure.deep_view()),
        }
    }
}

/// What the daemon does next: after a deployment it looks again at once, and
/// where there was nothing to deploy, or another deployment runs, after a while.
/// An artifact whose deployment failed is put aside.
pub open spec fn serve_step(reply: ServeReply) -> ServeActionView {
    match reply {
        ServeReply::Found(Ok(Some(artifact))) => ServeActionView::Deploy(artifact@),
        ServeReply::Found(Ok(None)) => ServeActionView::Sleep,
        ServeReply::Found(Err(failure)) => ServeActionView::Stop(failure.deep_view()),
        ServeReply::Deployed(_, Ok(_)) => ServeActionView::Look,
        ServeReply::Deployed(artifact, Err(failure)) => if failure.kind == ErrorKind::WouldBlock {
            ServeActionView::Sleep
        } else {
            ServeActionView::Quarantine(artifact@)
        },
        ServeReply::Slept => ServeActionView::Look,
        ServeReply::Quarantined(Ok(_)) => ServeActionView::Look,
        ServeReply::Quarantined(Err(failure)) => ServeActionView::Stop(failure.deep_view()),
    }
}

/// What the daemon says, on the error output, of what came of something.
pub open spec fn serve_words(reply: ServeReply) -> Option<Seq<char>> {
    match reply {
        ServeReply::Deployed(artifact, Err(failure)) => if failure.kind == ErrorKind::WouldBlock {
            Some(failure.message@)
        } else {
            Some("deployment failed for "@ + artifact@ + ": "@ + failure.message@)
        },
        _ => None,
    }
}

/// What the daemon says when it starts.
pub fn serve_greeting(inbox_dir: &str) -> (r: String)
    ensures
        r@ == "doubleshot watching "@ + inbox_dir@,
{
    text::concat("doubleshot watching ", inbox_dir)
}

/// What the daemon says of what came of something.
pub fn serve_message(reply: &ServeReply) -> (r: Option<String>)
    ensures
        r.deep_view() == serve_words(*reply),
{
    match reply {
        ServeReply::Deployed(artifact, Err(failure)) => {
            if failure.kind == ErrorKind::WouldBlock {
                Some(failure.message.clone())
            } else {
                let mut words = text::concat("deployment failed for ", artifact.as_str());
                words.append(": ");
                words.append(failure.message.as_str());
                Some(words)
            }
        },
        _ => None,
    }
}

/// What the daemon does next; the first thing to do is [`ServeAction::Look`].
pub fn serve_next(reply: ServeReply) -> (r: ServeAction)
    ensures
        r.deep_view() == serve_step(reply),
{
    match reply {
        ServeReply::Found(Ok(Some(artifact))) => ServeAction::Deploy(artifact),
        ServeReply::Found(Ok(None)) => ServeAction::Sleep,
        ServeReply::Found(Err(failure)) => ServeAction::Stop(failure),
        ServeReply::Deployed(_, Ok(_)) => ServeAction::Look,
        ServeReply::Deployed(artifact, Err(failure)) => {
            if failure.kind == ErrorKind::WouldBlock {
                ServeAction::Sleep
            } else {
                ServeAction::Quarantine(artifact)
            }
        },
        ServeReply::Slept => ServeAction::Look,
        ServeReply::Quarantined(Ok(_)) => ServeAction::Look,
        ServeReply::Quarantined(Err(failure)) => ServeAction::Stop(failure),
    }
}

/// An artifact that could not be deployed because another deployment runs stays
/// in the inbox, and the daemon goes on.
pub proof fn blocked_artifact_stays(artifact: String, failure: Failure)
    requires
        failure.kind == ErrorKind::WouldBlock,
    ensures
        serve_step(ServeReply::Deployed(artifact, Err(failure))) == ServeActionView::Sleep,
        serve_step(ServeReply::Slept) == ServeActionView::Look,
{
}

/// Every artifact that is found is deployed; where there is none, the daemon
/// sleeps and looks again. It stops only where the inbox cannot be read or a
/// failed artifact cannot be put aside, and with that failure.
pub proof fn daemon_goes_on(reply: ServeReply)
    ensures
        serve_step(reply) is Stop <==> {
            ||| reply matches ServeReply::Found(Err(_))
            ||| reply matches ServeReply::Quarantined(Err(_))
        },
        reply matches ServeReply::Found(Err(failure)) ==> serve_step(reply)
            == ServeActionView::Stop(failure.deep_view()),
        reply matches ServeReply::Quarantined(Err(failure)) ==> serve_step(reply)
            == ServeActionView::Stop(failure.deep_view()),
        reply matches ServeReply::Found(Ok(Some(artifact))) ==> serve_step(reply)
            == ServeActionView::Deploy(artifact@),
        reply matches ServeReply::Found(Ok(None)) ==> serve_step(reply) == ServeActionView::Sleep,
        reply is Slept ==> serve_step(reply) == ServeActionView::Look,
        reply matches ServeReply::Quarantined(Ok(_)) ==> serve_step(reply)
            == ServeActionView::Look,
        reply matches ServeReply::Deployed(_, Ok(_)) ==> serve_step(reply)
            == ServeActionView::Look,
{
}

/// An artifact whose deployment failed is put aside, whatever the failure, but
/// for one that says that another deployment is going on; and the failure is
/// told, with the artifact.
pub proof fn failed_artifact_is_put_aside(artifact: String, failure: Failure)
    ensures
        failure.kind != ErrorKind::WouldBlock ==> serve_step(
            ServeReply::Deployed(artifact, Err(failure)),
        ) == ServeActionView::Quarantine(artifact@),
        failure.kind != ErrorKind::WouldBlock ==> serve_words(
            ServeReply::Deployed(artifact, Err(failure)),
        ) == Some("deployment failed for "@ + artifact@ + ": "@ + failure.message@),
        failure.kind == ErrorKind::WouldBlock ==> serve_words(
            ServeReply::Deployed(artifact, Err(failure)),
        ) == Some(failure.message@),
        serve_words(ServeReply::Deployed(artifact, Ok(()))) is None,
        serve_words(ServeReply::Slept) is None,
{
}

} // verus!
