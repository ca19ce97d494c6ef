//! The process of an application: how it is started, how it is waited for until
//! it is ready, and how it is stopped.
use vstd::prelude::*;

use crate::config::{AppConfig, HealthConfig, HealthView};
use crate::failure;
use crate::failure::{ErrorKind, Failure, FailureView};
use crate::http;
use crate::number;
use crate::template;
use crate::template::RenderContext;
use crate::text;

verus! {

/// A template filled in from a context.
pub open spec fn filled_in(template: Seq<char>, context: RenderContext<'_>) -> Seq<char> {
    template::rendered(
        template,
        context.artifact@,
        context.release@,
        context.port,
        context.slot@,
    )
}

// ---------------------------------------------------------------------------
// Starting
// ---------------------------------------------------------------------------

/// The line that starts an application.
pub open spec fn launch_line(command: Seq<char>, context: RenderContext<'_>) -> Seq<char> {
    "exec "@ + filled_in(command, context)
}

/// The command that starts an application, for a shell that it takes the place
/// of.
pub fn launch_command(config: &AppConfig, context: &RenderContext<'_>) -> (r: String)
    ensures
        r@ == "exec "@ + filled_in(config.launch.command@, *context),
        r@ == launch_line(config.launch.command@, *context),
{
    let command = template::render_template(config.launch.command.as_str(), context);
    text::concat("exec ", command.as_str())
}

/// What is written into the file with the number of a process.
pub fn pid_contents(pid: u32) -> (r: String)
    ensures
        r@ == number::decimal(pid as nat),
{
    number::write_number(pid as u64)
}

/// An application is started with its release, on its port and in its slot: each
/// placeholder of the command is filled in with what it names, and what stands
/// around it is kept. The line is what the shell goes on as.
pub proof fn launch_names_the_deployment(
    before: Seq<char>,
    behind: Seq<char>,
    context: RenderContext<'_>,
)
    requires
        !before.contains('{'),
    ensures
        launch_line(before, context) == "exec "@ + before,
        launch_line(before + "{artifact}"@ + behind, context) == "exec "@ + before
            + template::quoted(context.artifact@) + filled_in(behind, context),
        launch_line(before + "{release}"@ + behind, context) == "exec "@ + before
            + template::quoted(context.release@) + filled_in(behind, context),
        launch_line(before + "{port}"@ + behind, context) == "exec "@ + before + number::decimal(
            context.port as nat,
        ) + filled_in(behind, context),
        launch_line(before + "{slot}"@ + behind, context) == "exec "@ + before + context.slot@
            + filled_in(behind, context),
{
    let a = context.artifact@;
    let r = context.release@;
    let p = context.port;
    let s = context.slot@;
    template::plain_text_is_kept(before, a, r, p, s);
    template::placeholders_stand_for_their_values(before, behind, a, r, p, s);
    let rest = filled_in(behind, context);
    assert("exec "@ + (before + template::quoted(a) + rest) =~= "exec "@ + before
        + template::quoted(a) + rest);
    assert("exec "@ + (before + template::quoted(r) + rest) =~= "exec "@ + before
        + template::quoted(r) + rest);
    assert("exec "@ + (before + number::decimal(p as nat) + rest) =~= "exec "@ + before
        + number::decimal(p as nat) + rest);
    assert("exec "@ + (before + s + rest) =~= "exec "@ + before + s + rest);
}

// ---------------------------------------------------------------------------
// Waiting
// ---------------------------------------------------------------------------

/// What an application is asked, to find out whether it is ready.
#[derive(Debug)]
pub enum Probe {
    /// To accept a connection.
    Tcp { address: String },
    /// To answer a request with a status.
    Http { url: String, method: String, expected_status: u16, headers: Vec<(String, String)> },
}

/// What a [`Probe`] holds.
pub enum ProbeView {
    Tcp { address: Seq<char> },
    Http {
        url: Seq<char>,
        method: Seq<char>,
        expected_status: u16,
        headers: Seq<(Seq<char>, Seq<char>)>,
    },
}

/// How it is waited until an application is ready.
#[derive(Debug)]
pub struct WaitPlan {
    pub probe: Probe,
    pub timeout_seconds: u64,
    pub interval_millis: u64,
}

/// What a [`WaitPlan`] holds.
pub struct WaitPlanView {
    pub probe: ProbeView,
    pub timeout_seconds: u64,
    pub interval_millis: u64,
}

impl DeepView for Probe {
    type V = ProbeView;

    open spec fn deep_view(&self) -> ProbeView {
        match self {
            Probe::Tcp { address } => ProbeView::Tcp { address: address@ },
            Probe::Http { url, method, expected_status, headers } => ProbeView::Http {
                url: url@,
                method: method@,
                expected_status: *expected_status,
                headers: headers.deep_view(),
            },
        }
    }
}

impl DeepView for WaitPlan {
    type V = WaitPlanView;

    open spec fn deep_view(&self) -> WaitPlanView {
        WaitPlanView {
            probe: self.probe.deep_view(),
            timeout_seconds: self.timeout_seconds,
            interval_millis: self.interval_millis,
        }
    }
}

/// How it is waited until an application is ready, by the configuration.
pub open spec fn wait_plan(health: HealthView, context: RenderContext<'_>) -> WaitPlanView {
    match health {
        HealthView::Tcp { host, timeout_seconds, interval_millis } => WaitPlanView {
            probe: ProbeView::Tcp {
                address: filled_in(host, context) + ":"@ + number::decimal(context.port as nat),
            },
            timeout_seconds,
            interval_millis,
        },
        HealthView::Http {
            url,
            method,
            expected_status,
            headers,
            timeout_seconds,
            interval_millis,
        } => WaitPlanView {
            probe: ProbeView::Http {
                url: filled_in(url, context),
                method,
                expected_status,
                headers,
            },
            timeout_seconds,
            interval_millis,
        },
    }
}

fn copy_headers(headers: &Vec<(String, String)>) -> (r: Vec<(String, String)>)
    ensures
        r.deep_view() == headers.deep_view(),
{
    let ghost all = headers.deep_view();
    let mut r: Vec<(String, String)> = Vec::new();
    let mut i: usize = 0;
    assert(r.deep_view() =~= all.take(0));
    while i < headers.len()
        invariant
            i <= headers.len(),
            all == headers.deep_view(),
            r.deep_view() == all.take(i as int),
        decreases headers.len() - i,
    {
        let ghost done = r.deep_view();
        assert(all[i as int] == headers@[i as int].deep_view());
        r.push((headers[i].0.clone(), headers[i].1.clone()));
        assert(r.deep_view() =~= done.push(all[i as int]));
        assert(all.take(i + 1) =~= done.push(all[i as int]));
        i = i + 1;
    }
    assert(all.take(headers.len() as int) =~= all);
    r
}

/// How it is waited until an application is ready, by the configuration.
pub fn wait_until_ready(config: &AppConfig, context: &RenderContext<'_>) -> (r: WaitPlan)
    ensures
        r.deep_view() == wait_plan(config.health.deep_view(), *context),
{
    match &config.health {
        HealthConfig::Tcp { host, timeout_seconds, interval_millis } => {
            let mut address = template::render_template(host.as_str(), context);
            let port = number::write_number(context.port as u64);
            address.append(":");
            address.append(port.as_str());
            WaitPlan {
                probe: Probe::Tcp { address },
                timeout_seconds: *timeout_seconds,
                interval_millis: *interval_millis,
            }
        },
        HealthConfig::Http {
            url,
            method,
            expected_status,
            headers,
            timeout_seconds,
            interval_millis,
        } => WaitPlan {
            probe: Probe::Http {
                url: template::render_template(url.as_str(), context),
                method: method.clone(),
                expected_status: *expected_status,
                headers: copy_headers(headers),
            },
            timeout_seconds: *timeout_seconds,
            interval_millis: *interval_millis,
        },
    }
}

/// Every header of the configuration is a line of each request that asks whether
/// the application is ready, wherever the request is sent.
pub proof fn configured_headers_are_sent(
    health: HealthView,
    context: RenderContext<'_>,
    url: http::UrlView,
    i: int,
)
    requires
        health matches HealthView::Http { headers, .. } && 0 <= i < headers.len(),
    ensures
        wait_plan(health, context).probe matches ProbeView::Http { method, headers, .. } && {
            let (name, value) = health->headers[i];
            text::contains_text(
                http::request(method, url, headers),
                name + ": "@ + value + "\r\n"@,
            )
        },
{
    let plan = wait_plan(health, context);
    http::every_header_is_sent(plan.probe->method, url, plan.probe->headers, i);
}

/// The request is the configured one: the method, the path of the address and
/// the headers, in order, are what its lines hold, and the status that it is
/// waited for is the configured one.
pub proof fn configured_request_is_sent(
    health: HealthView,
    context: RenderContext<'_>,
    url: http::UrlView,
)
    requires
        health matches HealthView::Http { method, headers, .. } && {
            &&& !method.contains('\n')
            &&& forall|i: int|
                0 <= i < headers.len() ==> !(#[trigger] headers[i]).0.contains('\n')
                    && !headers[i].1.contains('\n')
        },
        !url.path.contains('\n'),
        !url.host.contains('\n'),
    ensures
        wait_plan(health, context).probe matches ProbeView::Http {
            method,
            headers,
            expected_status,
            ..
        } && {
            let lines = text::line_seq(http::request(method, url, headers));
            &&& lines.len() == health->headers.len() + 4
            &&& lines[0] == health->method + " "@ + url.path + " HTTP/1.1"@
            &&& lines[1] == "Host: "@ + url.host
            &&& forall|i: int|
                3 <= i < lines.len() - 1 ==> #[trigger] lines[i] == health->headers[i - 3].0 + ": "@
                    + health->headers[i - 3].1
            &&& lines.last().len() == 0
            &&& expected_status == health->expected_status
        },
{
    let plan = wait_plan(health, context);
    http::request_is_read_by_line(plan.probe->method, url, plan.probe->headers);
}

/// The plan asks what the configuration says: the method, the status and each
/// header of a request are the configured ones.
pub proof fn plan_asks_as_configured(config: AppConfig, context: RenderContext<'_>, plan: WaitPlan)
    requires
        plan.deep_view() == wait_plan(config.health.deep_view(), context),
    ensures
        match (config.health, plan.probe) {
            (HealthConfig::Tcp { timeout_seconds, interval_millis, .. }, Probe::Tcp { .. }) => {
                &&& plan.timeout_seconds == timeout_seconds
                &&& plan.interval_millis == interval_millis
            },
            (
                HealthConfig::Http {
                    method,
                    expected_status,
                    headers,
                    timeout_seconds,
                    interval_millis,
                    ..
                },
                Probe::Http { method: verb, expected_status: status, headers: lines, .. },
            ) => {
                &&& verb@ == method@
                &&& status == expected_status
                &&& lines.len() == headers.len()
                &&& forall|i: int|
                    0 <= i < headers.len() ==> (#[trigger] lines@[i]).0@ == headers@[i].0@
                        && lines@[i].1@ == headers@[i].1@
                &&& plan.timeout_seconds == timeout_seconds
                &&& plan.interval_millis == interval_millis
            },
            _ => false,
        },
{
    if let (HealthConfig::Http { headers, .. }, Probe::Http { headers: lines, .. }) = (
        config.health,
        plan.probe,
    ) {
        assert(lines.deep_view() == headers.deep_view());
        assert(lines.deep_view().len() == lines.len());
        assert forall|i: int| 0 <= i < headers.len() implies (#[trigger] lines@[i]).0@
            == headers@[i].0@ && lines@[i].1@ == headers@[i].1@ by {
            assert(lines.deep_view()[i] == lines@[i].deep_view());
            assert(headers.deep_view()[i] == headers@[i].deep_view());
        }
    }
}

/// It is waited for as long, and asked as often, as the configuration says.
pub proof fn configured_times_are_kept(health: HealthView, context: RenderContext<'_>)
    ensures
        health matches HealthView::Tcp { timeout_seconds, interval_millis, .. } ==> {
            &&& wait_plan(health, context).timeout_seconds == timeout_seconds
            &&& wait_plan(health, context).interval_millis == interval_millis
        },
        health matches HealthView::Http { timeout_seconds, interval_millis, .. } ==> {
            &&& wait_plan(health, context).timeout_seconds == timeout_seconds
            &&& wait_plan(health, context).interval_millis == interval_millis
        },
{
}

/// The application is asked at the configured host, on the port of its own
/// slot.
pub proof fn own_port_is_asked(
    host: Seq<char>,
    path: Seq<char>,
    health: HealthView,
    context: RenderContext<'_>,
)
    requires
        !host.contains('{'),
        !host.contains('/'),
        !path.contains('{'),
        path.len() > 0,
        path[0] == '/',
    ensures
        health matches HealthView::Tcp { host: named, .. } && named == host ==> wait_plan(
            health,
            context,
        ).probe == (ProbeView::Tcp {
            address: host + ":"@ + number::decimal(context.port as nat),
        }),
        health matches HealthView::Http { url, .. } && url == "http://"@ + host + ":{port}"@ + path
            ==> {
            &&& wait_plan(health, context).probe is Http
            &&& http::url_parts(wait_plan(health, context).probe->url) == Ok::<
                http::UrlView,
                FailureView,
            >(http::UrlView { host, port: context.port, path })
        },
{
    let a = context.artifact@;
    let r = context.release@;
    let p = context.port;
    let s = context.slot@;
    template::plain_text_is_kept(host, a, r, p, s);
    template::plain_text_is_kept(path, a, r, p, s);
    reveal_strlit("http://");
    reveal_strlit(":");
    reveal_strlit("{port}");
    reveal_strlit(":{port}");
    let front = "http://"@ + host + ":"@;
    assert("http://"@ + host + ":{port}"@ + path =~= front + "{port}"@ + path);
    assert(!front.contains('{')) by {
        assert forall|k: int| 0 <= k < front.len() implies front[k] != '{' by {
            if 7 <= k < 7 + host.len() {
                assert(front[k] == host[k - 7]);
                assert(host.contains(host[k - 7]));
            }
        }
    }
    template::plain_text_is_kept(front, a, r, p, s);
    template::placeholders_stand_for_their_values(front, path, a, r, p, s);
    http::url_reads_back(host, p, path);
}

/// Each placeholder of the host or the address of a health check is filled in
/// with what it names, and what stands around it is kept.
pub proof fn health_check_names_the_deployment(
    before: Seq<char>,
    behind: Seq<char>,
    health: HealthView,
    context: RenderContext<'_>,
)
    requires
        !before.contains('{'),
        !behind.contains('{'),
    ensures
        ({
            let template = match health {
                HealthView::Tcp { host, .. } => host,
                HealthView::Http { url, .. } => url,
            };
            let asked = match wait_plan(health, context).probe {
                ProbeView::Tcp { address } => address,
                ProbeView::Http { url, .. } => url,
            };
            let end = match health {
                HealthView::Tcp { .. } => ":"@ + number::decimal(context.port as nat),
                HealthView::Http { .. } => Seq::empty(),
            };
            &&& health is Tcp <==> wait_plan(health, context).probe is Tcp
            &&& template == before ==> asked == before + end
            &&& template == before + "{artifact}"@ + behind ==> asked == before + template::quoted(
                context.artifact@,
            ) + behind + end
            &&& template == before + "{release}"@ + behind ==> asked == before + template::quoted(
                context.release@,
            ) + behind + end
            &&& template == before + "{port}"@ + behind ==> asked == before + number::decimal(
                context.port as nat,
            ) + behind + end
            &&& template == before + "{slot}"@ + behind ==> asked == before + context.slot@ + behind
                + end
        }),
{
    let a = context.artifact@;
    let r = context.release@;
    let p = context.port;
    let s = context.slot@;
    template::plain_text_is_kept(before, a, r, p, s);
    template::plain_text_is_kept(behind, a, r, p, s);
    template::placeholders_stand_for_their_values(before, behind, a, r, p, s);
    let asked = match wait_plan(health, context).probe {
        ProbeView::Tcp { address } => address,
        ProbeView::Http { url, .. } => url,
    };
    let port = number::decimal(p as nat);
    match health {
        HealthView::Tcp { host, .. } => {
            let filled = filled_in(host, context);
            assert(filled + ":"@ + port =~= filled + (":"@ + port));
        },
        HealthView::Http { .. } => {
            assert(asked + Seq::<char>::empty() =~= asked);
        },
    }
}

/// The failure of an application that accepted no connection in time.
pub open spec fn late_connection(address: Seq<char>) -> FailureView {
    FailureView {
        kind: ErrorKind::TimedOut,
        message: "application did not accept TCP connections on "@ + address,
    }
}

/// The failure of an application that did not answer with the expected status in
/// time.
pub open spec fn late_answer(expected_status: u16, url: Seq<char>) -> FailureView {
    FailureView {
        kind: ErrorKind::TimedOut,
        message: "HTTP health check did not return "@ + number::decimal(expected_status as nat)
            + " for "@ + url,
    }
}

/// Whether what came of a request is the status that is waited for.
pub open spec fn answers_as_expected(status: Result<u16, Failure>, expected_status: u16) -> bool {
    status == Ok::<u16, Failure>(expected_status)
}

/// An application that is late fails by the time, and it is told what it was
/// waited for.
pub proof fn lateness_is_told(address: Seq<char>, expected_status: u16, url: Seq<char>)
    ensures
        late_connection(address).kind == ErrorKind::TimedOut,
        text::contains_text(late_connection(address).message, address),
        late_answer(expected_status, url).kind == ErrorKind::TimedOut,
        text::contains_text(
            late_answer(expected_status, url).message,
            number::decimal(expected_status as nat) + " for "@ + url,
        ),
{
    lemma_told_at_the_end("application did not accept TCP connections on "@, address);
    let start = "HTTP health check did not return "@;
    let digits = number::decimal(expected_status as nat);
    let between = " for "@;
    assert(start + digits + between + url =~= start + (digits + between + url));
    lemma_told_at_the_end(start, digits + between + url);
}

proof fn lemma_told_at_the_end(front: Seq<char>, told: Seq<char>)
    ensures
        text::contains_text(front + told, told),
{
    let none = Seq::<char>::empty();
    text::text_occurs_where_it_stands(front, told, none);
    assert(front + told + none =~= front + told);
}

/// An application is ready exactly where the first line of its answer has the
/// expected status; no answer is no readiness.
pub proof fn expected_status_is_readiness(status: u16, expected_status: u16, failure: Failure)
    ensures
        answers_as_expected(Ok(status), expected_status) <==> status == expected_status,
        !answers_as_expected(Err(failure), expected_status),
{
}

/// The failure of an application that accepted no connection in time.
pub fn tcp_timeout(address: &str) -> (r: Failure)
    ensures
        r.deep_view() == (FailureView {
            kind: ErrorKind::TimedOut,
            message: "application did not accept TCP connections on "@ + address@,
        }),
        r.deep_view() == late_connection(address@),
{
    Failure::new(
        ErrorKind::TimedOut,
        text::concat("application did not accept TCP connections on ", address),
    )
}

/// The failure of an application that did not answer with the expected status
/// in time.
pub fn http_timeout(expected_status: u16, url: &str) -> (r: Failure)
    ensures
        r.deep_view() == (FailureView {
            kind: ErrorKind::TimedOut,
            message: "HTTP health check did not return "@ + number::decimal(
                expected_status as nat,
            ) + " for "@ + url@,
        }),
        r.deep_view() == late_answer(expected_status, url@),
{
    let status = number::write_number(expected_status as u64);
    let mut message = text::concat("HTTP health check did not return ", status.as_str());
    message.append(" for ");
    message.append(url);
    Failure::new(ErrorKind::TimedOut, message)
}

/// Whether the answer to a request is the expected one; where there was no
/// answer, it is not.
pub fn http_ready(status: &Result<u16, Failure>, expected_status: u16) -> (r: bool)
    ensures
        r == (*status == Ok::<u16, Failure>(expected_status)),
        r == answers_as_expected(*status, expected_status),
{
    match status {
        Ok(status) => *status == expected_status,
        Err(_) => false,
    }
}

/// What is to be done next while it is waited for an application.
#[derive(Debug)]
pub enum WaitAction {
    /// Find out whether there is time left.
    Clock,
    /// Find out whether the process is still there.
    Child,
    /// Ask the application whether it is ready.
    Probe,
    /// Let an interval pass.
    Sleep,
    /// The application is ready.
    Ready,
    /// It is waited no longer.
    Failed(Failure),
}

/// What came of it.
#[derive(Debug)]
pub enum WaitReply {
    /// Whether there is time left.
    InTime(bool),
    /// The process is still there.
    Running,
    /// The process ended, with this status.
    Exited(String),
    /// It cannot be found out whether the process is still there.
    Unknown(Failure),
    /// Whether the application is ready.
    Probed(bool),
    /// An interval passed.
    Slept,
}

/// What a [`WaitAction`] holds.
pub enum WaitActionView {
    Clock,
    Child,
    Probe,
    Sleep,
    Ready,
    Failed(FailureView),
}

impl DeepView for WaitAction {
    type V = WaitActionView;

    open spec fn deep_view(&self) -> WaitActionView {
        match self {
            WaitAction::Clock => WaitActionView::Clock,
            WaitAction::Child => WaitActionView::Child,
            WaitAction::Probe => WaitActionView::Probe,
            WaitAction::Sleep => WaitActionView::Sleep,
            WaitAction::Ready => WaitActionView::Ready,
            WaitAction::Failed(failure) => WaitActionView::Failed(failure.deep_view()),
        }
    }
}

/// What is done next. `late` is the failure where there is no time left.
pub open spec fn wait_step(late: FailureView, reply: WaitReply) -> WaitActionView {
    match reply {
        WaitReply::InTime(true) => WaitActionView::Child,
        WaitReply::InTime(false) => WaitActionView::Failed(late),
        WaitReply::Running => WaitActionView::Probe,
        WaitReply::Exited(status) => WaitActionView::Failed(
            FailureView {
                kind: ErrorKind::Other,
                message: "application exited before becoming ready with status "@ + status@,
            },
        ),
        WaitReply::Unknown(failure) => WaitActionView::Failed(failure.deep_view()),
        WaitReply::Probed(true) => WaitActionView::Ready,
        WaitReply::Probed(false) => WaitActionView::Sleep,
        WaitReply::Slept => WaitActionView::Clock,
    }
}

/// What is done next while it is waited for an application; the first thing to
/// do is [`WaitAction::Clock`].
pub fn wait_next(late: &Failure, reply: WaitReply) -> (r: WaitAction)
    ensures
        r.deep_view() == wait_step(late.deep_view(), reply),
{
    match reply {
        WaitReply::InTime(in_time) => {
            if in_time {
                WaitAction::Child
            } else {
                WaitAction::Failed(late.clone())
            }
        },
        WaitReply::Running => WaitAction::Probe,
        WaitReply::Exited(status) => WaitAction::Failed(
            Failure::new(
                ErrorKind::Other,
                text::concat(
                    "application exited before becoming ready with status ",
                    status.as_str(),
                ),
            ),
        ),
        WaitReply::Unknown(failure) => WaitAction::Failed(failure),
        WaitReply::Probed(ready) => {
            if ready {
                WaitAction::Ready
            } else {
                WaitAction::Sleep
            }
        },
        WaitReply::Slept => WaitAction::Clock,
    }
}

/// Whether a reply is one to an action.
pub open spec fn wait_answers(action: WaitActionView, reply: WaitReply) -> bool {
    match action {
        WaitActionView::Clock => reply is InTime,
        WaitActionView::Child => reply is Running || reply is Exited || reply is Unknown,
        WaitActionView::Probe => reply is Probed,
        WaitActionView::Sleep => reply is Slept,
        WaitActionView::Ready => false,
        WaitActionView::Failed(_) => false,
    }
}

/// The actions while it is waited, for the replies that came so far.
pub open spec fn waiting(late: FailureView, replies: Seq<WaitReply>) -> Seq<WaitActionView>
    decreases replies.len(),
{
    if replies.len() == 0 {
        seq![WaitActionView::Clock]
    } else {
        waiting(late, replies.drop_last()).push(wait_step(late, replies.last()))
    }
}

/// Whether every reply is one to its action.
pub open spec fn wait_answered(late: FailureView, replies: Seq<WaitReply>) -> bool
    decreases replies.len(),
{
    replies.len() == 0 || {
        &&& wait_answered(late, replies.drop_last())
        &&& wait_answers(waiting(late, replies.drop_last()).last(), replies.last())
    }
}

/// An application counts as ready only where it said so itself, its process
/// was there, and there was time left.
pub proof fn ready_means_asked(late: FailureView, replies: Seq<WaitReply>)
    requires
        wait_answered(late, replies),
        waiting(late, replies).last() == WaitActionView::Ready,
    ensures
        replies.len() >= 3,
        replies[replies.len() - 1] == WaitReply::Probed(true),
        replies[replies.len() - 2] == WaitReply::Running,
        replies[replies.len() - 3] == WaitReply::InTime(true),
{
    let n = replies.len() as int;
    let a = replies.drop_last();
    assert(wait_answers(waiting(late, a).last(), replies.last()));
    assert(waiting(late, a).last() == WaitActionView::Probe);
    assert(wait_answered(late, a));
    assert(a.len() > 0);
    assert(a.last() == replies[n - 2]);
    let b = a.drop_last();
    assert(wait_answers(waiting(late, b).last(), a.last()));
    assert(waiting(late, b).last() == WaitActionView::Child);
    assert(wait_answered(late, b));
    assert(b.len() > 0);
    assert(b.last() == replies[n - 3]);
    assert(wait_answers(waiting(late, b.drop_last()).last(), b.last()));
}

/// Waiting ends only for a reason: the application is ready when it answers so,
/// and it fails when the time is up, when the process has ended, or when that
/// cannot be found out. Each failure says which of these it was.
pub proof fn waiting_ends_for_a_reason(late: FailureView, replies: Seq<WaitReply>)
    requires
        wait_answered(late, replies),
        replies.len() > 0,
    ensures
        waiting(late, replies).last() == WaitActionView::Ready <==> replies.last()
            == WaitReply::Probed(true),
        waiting(late, replies).last() is Failed <==> {
            ||| replies.last() == WaitReply::InTime(false)
            ||| replies.last() is Exited
            ||| replies.last() is Unknown
        },
        replies.last() == WaitReply::InTime(false) ==> waiting(late, replies).last()
            == WaitActionView::Failed(late),
        replies.last() matches WaitReply::Unknown(failure) ==> waiting(late, replies).last()
            == WaitActionView::Failed(failure.deep_view()),
        replies.last() matches WaitReply::Exited(status) ==> {
            &&& waiting(late, replies).last()->Failed_0.kind == ErrorKind::Other
            &&& text::contains_text(waiting(late, replies).last()->Failed_0.message, status@)
        },
{
    if let WaitReply::Exited(status) = replies.last() {
        let front = "application exited before becoming ready with status "@;
        text::text_occurs_where_it_stands(front, status@, Seq::empty());
        assert(front + status@ + Seq::<char>::empty() =~= front + status@);
    }
}

/// An application that is not ready yet is asked again after an interval, for as
/// long as there is time and its process is there.
pub proof fn application_is_asked_again(late: FailureView, replies: Seq<WaitReply>)
    requires
        wait_answered(late, replies),
        replies.len() == 0 || replies.last() == WaitReply::Probed(false),
    ensures
        ({
            let later = if replies.len() == 0 {
                replies
            } else {
                replies.push(WaitReply::Slept)
            };
            let asked = later.push(WaitReply::InTime(true)).push(WaitReply::Running);
            &&& replies.len() > 0 ==> waiting(late, replies).last() == WaitActionView::Sleep
            &&& wait_answered(late, asked)
            &&& waiting(late, asked).last() == WaitActionView::Probe
            &&& waiting(late, asked.push(WaitReply::Probed(true))).last() == WaitActionView::Ready
            &&& wait_answered(late, asked.push(WaitReply::Probed(false)))
        }),
{
    let later = if replies.len() == 0 {
        replies
    } else {
        replies.push(WaitReply::Slept)
    };
    let clock = later.push(WaitReply::InTime(true));
    let asked = clock.push(WaitReply::Running);
    assert(replies.len() > 0 ==> later.drop_last() =~= replies);
    assert(clock.drop_last() =~= later);
    assert(asked.drop_last() =~= clock);
    assert(asked.push(WaitReply::Probed(true)).drop_last() =~= asked);
    assert(asked.push(WaitReply::Probed(false)).drop_last() =~= asked);
    assert(waiting(late, later).last() == WaitActionView::Clock);
    assert(wait_answered(late, later));
    assert(wait_answered(late, clock));
    assert(waiting(late, clock).last() == WaitActionView::Child);
    assert(wait_answered(late, asked));
    assert(waiting(late, asked).last() == WaitActionView::Probe);
}

// ---------------------------------------------------------------------------
// Stopping
// ---------------------------------------------------------------------------

/// What is to be done next to stop a process.
#[derive(Debug)]
pub enum StopAction {
    /// Ask the process to end.
    Terminate,
    /// Find out whether there is time left.
    Clock,
    /// Find out whether the process is gone.
    Look,
    /// Let a quarter of a second pass.
    Pause,
    /// Make the process end.
    Kill,
    /// The process is stopped.
    Stopped,
    /// It cannot be found out whether the process is gone.
    Failed(Failure),
}

/// What came of it.
#[derive(Debug)]
pub enum StopReply {
    Terminated,
    InTime(bool),
    Gone(bool),
    Unknown(Failure),
    Paused,
    Killed,
}

/// What a [`StopAction`] holds.
pub enum StopActionView {
    Terminate,
    Clock,
    Look,
    Pause,
    Kill,
    Stopped,
    Failed(FailureView),
}

impl DeepView for StopAction {
    type V = StopActionView;

    open spec fn deep_view(&self) -> StopActionView {
        match self {
            StopAction::Terminate => StopActionView::Terminate,
            StopAction::Clock => StopActionView::Clock,
            StopAction::Look => StopActionView::Look,
            StopAction::Pause => StopActionView::Pause,
            StopAction::Kill => StopActionView::Kill,
            StopAction::Stopped => StopActionView::Stopped,
            StopAction::Failed(failure) => StopActionView::Failed(failure.deep_view()),
        }
    }
}

/// What is done next.
pub open spec fn stop_step(reply: StopReply) -> StopActionView {
    match reply {
        StopReply::Terminated => StopActionView::Clock,
        StopReply::InTime(true) => StopActionView::Look,
        StopReply::InTime(false) => StopActionView::Kill,
        StopReply::Gone(true) => StopActionView::Stopped,
        StopReply::Gone(false) => StopActionView::Pause,
        StopReply::Unknown(failure) => StopActionView::Failed(failure.deep_view()),
        StopReply::Paused => StopActionView::Clock,
        StopReply::Killed => StopActionView::Stopped,
    }
}

/// What is done next to stop a process; the first thing to do is
/// [`StopAction::Terminate`].
pub fn stop_next(reply: StopReply) -> (r: StopAction)
    ensures
        r.deep_view() == stop_step(reply),
{
    match reply {
        StopReply::Terminated => StopAction::Clock,
        StopReply::InTime(in_time) => {
            if in_time {
                StopAction::Look
            } else {
                StopAction::Kill
            }
        },
        StopReply::Gone(gone) => {
            if gone {
                StopAction::Stopped
            } else {
                StopAction::Pause
            }
        },
        StopReply::Unknown(failure) => StopAction::Failed(failure),
        StopReply::Paused => StopAction::Clock,
        StopReply::Killed => StopAction::Stopped,
    }
}

/// Whether a reply is one to an action.
pub open spec fn stop_answers(action: StopActionView, reply: StopReply) -> bool {
    match action {
        StopActionView::Terminate => reply is Terminated,
        StopActionView::Clock => reply is InTime,
        StopActionView::Look => reply is Gone || reply is Unknown,
        StopActionView::Pause => reply is Paused,
        StopActionView::Kill => reply is Killed,
        StopActionView::Stopped => false,
        StopActionView::Failed(_) => false,
    }
}

/// The actions while a process is stopped, for the replies that came so far.
pub open spec fn stopping(replies: Seq<StopReply>) -> Seq<StopActionView>
    decreases replies.len(),
{
    if replies.len() == 0 {
        seq![StopActionView::Terminate]
    } else {
        stopping(replies.drop_last()).push(stop_step(replies.last()))
    }
}

/// Whether every reply is one to its action.
pub open spec fn stop_answered(replies: Seq<StopReply>) -> bool
    decreases replies.len(),
{
    replies.len() == 0 || {
        &&& stop_answered(replies.drop_last())
        &&& stop_answers(stopping(replies.drop_last()).last(), replies.last())
    }
}

/// A process that counts as stopped was seen gone, or was made to end; and it is
/// made to end only where it did not end in time.
pub proof fn stopped_means_gone_or_killed(replies: Seq<StopReply>)
    requires
        stop_answered(replies),
        stopping(replies).last() == StopActionView::Stopped,
    ensures
        replies.len() >= 2,
        replies.last() == StopReply::Gone(true) || {
            &&& replies.last() == StopReply::Killed
            &&& replies[replies.len() - 2] == StopReply::InTime(false)
        },
{
    let a = replies.drop_last();
    assert(stop_answers(stopping(a).last(), replies.last()));
    assert(stop_answered(a));
    assert(a.len() > 0);
    assert(a.last() == replies[replies.len() - 2]);
    assert(stop_answers(stopping(a.drop_last()).last(), a.last()));
}

/// Every process that is stopped was asked to end first.
pub proof fn asked_to_end_first(replies: Seq<StopReply>)
    ensures
        stopping(replies)[0] == StopActionView::Terminate,
        stopping(replies).len() == replies.len() + 1,
    decreases replies.len(),
{
    if replies.len() > 0 {
        asked_to_end_first(replies.drop_last());
    }
}

/// A process that was asked to end is looked for again after a pause, for as
/// long as there is time; it is killed only when the time is up, and where
/// looking for it fails, that failure is the end.
pub proof fn process_is_killed_only_late(replies: Seq<StopReply>)
    requires
        stop_answered(replies),
        replies.len() > 0,
    ensures
        stopping(replies).last() == StopActionView::Kill <==> replies.last() == StopReply::InTime(
            false,
        ),
        stopping(replies).last() == StopActionView::Stopped <==> replies.last()
            == StopReply::Gone(true) || replies.last() == StopReply::Killed,
        stopping(replies).last() is Failed <==> replies.last() is Unknown,
        replies.last() matches StopReply::Unknown(failure) ==> stopping(replies).last()
            == StopActionView::Failed(failure.deep_view()),
        replies.last() == StopReply::Terminated || replies.last() == StopReply::Gone(false) ==> {
            let later = if replies.last() == StopReply::Terminated {
                replies
            } else {
                replies.push(StopReply::Paused)
            };
            &&& replies.last() == StopReply::Gone(false) ==> stopping(replies).last()
                == StopActionView::Pause
            &&& stop_answered(later.push(StopReply::InTime(true)))
            &&& stopping(later.push(StopReply::InTime(true))).last() == StopActionView::Look
            &&& stop_answered(later.push(StopReply::InTime(false)).push(StopReply::Killed))
            &&& stopping(later.push(StopReply::InTime(false)).push(StopReply::Killed)).last()
                == StopActionView::Stopped
        },
{
    if replies.last() == StopReply::Terminated || replies.last() == StopReply::Gone(false) {
        let later = if replies.last() == StopReply::Terminated {
            replies
        } else {
            replies.push(StopReply::Paused)
        };
        if replies.last() != StopReply::Terminated {
            assert(later.drop_last() =~= replies);
        }
        assert(stopping(later).last() == StopActionView::Clock);
        assert(stop_answered(later));
        let soon = later.push(StopReply::InTime(true));
        let late = later.push(StopReply::InTime(false));
        assert(soon.drop_last() =~= later);
        assert(late.drop_last() =~= later);
        assert(stop_answered(late));
        assert(late.push(StopReply::Killed).drop_last() =~= late);
    }
}

/// What the file with the number of a process says.
#[derive(Debug)]
pub enum PidFile {
    /// There is no file.
    Missing,
    /// It holds no number.
    Empty,
    /// It holds the number of this process.
    Pid(String),
}

/// What a [`PidFile`] holds.
pub enum PidFileView {
    Missing,
    Empty,
    Pid(Seq<char>),
}

impl DeepView for PidFile {
    type V = PidFileView;

    open spec fn deep_view(&self) -> PidFileView {
        match self {
            PidFile::Missing => PidFileView::Missing,
            PidFile::Empty => PidFileView::Empty,
            PidFile::Pid(pid) => PidFileView::Pid(pid@),
        }
    }
}

/// Which process is to be stopped, from what came of reading the file with its
/// number.
pub open spec fn pid_file(read: Result<String, Failure>) -> Result<PidFileView, FailureView> {
    match read {
        Ok(contents) => Ok(
            if text::trimmed(contents@).len() == 0 {
                PidFileView::Empty
            } else {
                PidFileView::Pid(text::trimmed(contents@))
            },
        ),
        Err(failure) => if failure.kind == ErrorKind::NotFound {
            Ok(PidFileView::Missing)
        } else {
            Err(failure.deep_view())
        },
    }
}

/// Which process is to be stopped, from what came of reading the file with its
/// number: none where there is no file, or no number in it.
pub fn process_to_stop(read: Result<String, Failure>) -> (r: Result<PidFile, Failure>)
    ensures
        match read {
            Ok(contents) => r is Ok && r->Ok_0.deep_view() == if text::trimmed(contents@).len()
                == 0 {
                PidFileView::Empty
            } else {
                PidFileView::Pid(text::trimmed(contents@))
            },
            Err(failure) => if failure.kind == ErrorKind::NotFound {
                r is Ok && r->Ok_0 == PidFile::Missing
            } else {
                r == Err::<PidFile, Failure>(failure)
            },
        },
        failure::outcome(r) == pid_file(read),
{
    match read {
        Ok(contents) => {
            let pid = text::trim(contents.as_str());
            if text::chars_of(pid).len() == 0 {
                Ok(PidFile::Empty)
            } else {
                Ok(PidFile::Pid(pid.to_owned()))
            }
        },
        Err(failure) => {
            if failure.kind == ErrorKind::NotFound {
                Ok(PidFile::Missing)
            } else {
                Err(failure)
            }
        },
    }
}

/// The number that is written into the file of a process is the one that is
/// read from it.
pub proof fn written_pid_reads_back(pid: nat)
    ensures
        text::trimmed(number::decimal(pid)) == number::decimal(pid),
        number::decimal(pid).len() > 0,
{
    let digits = number::decimal(pid);
    number::written_number_is_digits(pid);
    assert(number::is_digit(digits[0]));
    assert(number::is_digit(digits[digits.len() - 1]));
}

/// The process that is stopped is the one whose number was written, whatever
/// white space the file holds around it. A file that is not there, or that holds
/// white space only, names none, and any other failure is kept.
pub proof fn written_process_is_stopped(
    pid: nat,
    contents: String,
    before: Seq<char>,
    behind: Seq<char>,
    failure: Failure,
)
    requires
        forall|k: int| 0 <= k < before.len() ==> text::white(#[trigger] before[k]),
        forall|k: int| 0 <= k < behind.len() ==> text::white(#[trigger] behind[k]),
    ensures
        contents@ == before + number::decimal(pid) + behind ==> pid_file(Ok(contents)) == Ok::<
            PidFileView,
            FailureView,
        >(PidFileView::Pid(number::decimal(pid))),
        contents@ == before ==> pid_file(Ok(contents)) == Ok::<PidFileView, FailureView>(
            PidFileView::Empty,
        ),
        failure.kind == ErrorKind::NotFound ==> pid_file(Err(failure)) == Ok::<
            PidFileView,
            FailureView,
        >(PidFileView::Missing),
        failure.kind != ErrorKind::NotFound ==> pid_file(Err(failure)) == Err::<
            PidFileView,
            FailureView,
        >(failure.deep_view()),
{
    let none = Seq::<char>::empty();
    let digits = number::decimal(pid);
    written_pid_reads_back(pid);
    number::written_number_is_digits(pid);
    assert(number::is_digit(digits[0]));
    assert(number::is_digit(digits[digits.len() - 1]));
    text::trimming_takes_the_ends(before, digits, behind);
    text::trimming_takes_the_ends(before, none, none);
    assert(before + none + none =~= before);
}

} // verus!
