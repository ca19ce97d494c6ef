use doubleshot::config::{AppConfig, HealthConfig, LaunchConfig, SwitchConfig};
use doubleshot::deploy::{DeployReply, Deployment, Stage};
use doubleshot::events::{read_log, write_event, DeployEvent, FollowEnd, Follower, Phase};
use doubleshot::failure::{ErrorKind, Failure};
use doubleshot::http::{http_request, parse_http_url, response_status, HttpUrl};
use doubleshot::lock::{acquire_next, lock_contents, lock_owner, LockAction, LockReply};
use doubleshot::process::{
    http_ready, http_timeout, launch_command, pid_contents, process_to_stop, stop_next,
    tcp_timeout, wait_next, wait_until_ready, PidFile, Probe, StopAction, StopReply, WaitAction,
    WaitReply,
};
use doubleshot::release::{
    artifact_name, import_release, next_artifact, quarantine_failed_artifact, quarantine_path,
    release_path, InboxEntry,
};
use doubleshot::serve::{serve_greeting, serve_message, serve_next, ServeAction, ServeReply};
use doubleshot::slots::SlotConfig;
use doubleshot::state::{active_slot, read_optional_string, status_slot, target_slot};
use doubleshot::switch::{
    capture_switch_state, promote, restore_switch_state, write_active_state, write_promotion,
    write_restoration, FileStep, SwitchState,
};
use doubleshot::template::RenderContext;

fn config(names: &[&str]) -> AppConfig {
    AppConfig {
        inbox_dir: "/h/inbox".to_string(),
        releases_dir: "/h/releases".to_string(),
        runtime_dir: "/h/runtime".to_string(),
        slots: names
            .iter()
            .zip(9001..)
            .map(|(name, port)| SlotConfig { name: name.to_string(), port })
            .collect(),
        launch: LaunchConfig {
            command: "run {artifact} {port}".to_string(),
            env_files: vec![],
        },
        health: HealthConfig::Tcp {
            host: "{slot}.local".to_string(),
            timeout_seconds: 11,
            interval_millis: 12,
        },
        switch: SwitchConfig::NginxProxyPassInclude {
            path: "/n/pass.inc".to_string(),
            reload_command: "reload".to_string(),
            host: "{slot}.host".to_string(),
        },
        poll_interval: 1,
        shutdown_timeout: 2,
    }
}

const CONTEXT: RenderContext<'static> = RenderContext {
    artifact: "/r/1-a",
    port: 9001,
    slot: "a",
    release: "/r/1-a",
};

fn other(words: &str) -> Failure {
    Failure::new(ErrorKind::Other, words.to_string())
}

#[test]
fn http_urls_that_cannot_be_used_are_refused() {
    let failure = parse_http_url("https://x:1/").unwrap_err();
    assert_eq!(failure.kind(), ErrorKind::InvalidInput);
    assert_eq!(failure.message, "only http:// health URLs are supported: https://x:1/");
    assert_eq!(
        parse_http_url("http://host/path:1").unwrap_err().message,
        "HTTP health URL needs a port"
    );
    assert_eq!(
        parse_http_url("http://host:x/").unwrap_err().message,
        "invalid digit found in string"
    );
    assert_eq!(
        parse_http_url("http://::1:80").unwrap(),
        HttpUrl { host: "::1".to_string(), port: 80, path: "/".to_string() }
    );
}

#[test]
fn requests_carry_their_headers_in_order() {
    let url = parse_http_url("http://h:8/p?q").unwrap();
    let headers = vec![
        ("X-B".to_string(), "2".to_string()),
        ("X-A".to_string(), "1".to_string()),
    ];
    assert_eq!(
        http_request("HEAD", &url, &headers),
        "HEAD /p?q HTTP/1.1\r\nHost: h\r\nConnection: close\r\nX-B: 2\r\nX-A: 1\r\n\r\n"
    );
}

#[test]
fn the_status_is_the_second_word() {
    assert_eq!(response_status("HTTP/1.1 418 I'm a teapot\r\nA: b\r\n\r\n").unwrap(), 418);
    for response in ["", "HTTP/1.1", "HTTP/1.1 x", "HTTP/1.1 99999", "\nHTTP/1.1 200"] {
        let failure = response_status(response).unwrap_err();
        assert_eq!(failure.kind(), ErrorKind::InvalidData);
        assert_eq!(failure.message, "invalid HTTP response");
    }
    assert!(http_ready(&Ok(200), 200));
    assert!(!http_ready(&Ok(201), 200));
    assert!(!http_ready(&Err(other("x")), 200));
}

#[test]
fn the_lock_file_names_its_owner() {
    assert_eq!(lock_contents(42), "pid=42\n");
    assert_eq!(lock_owner(&lock_contents(42)).unwrap(), "42");
    assert_eq!(lock_owner("host=x\n  pid= 7 \npid=8\n").unwrap(), "7");
    assert_eq!(lock_owner("pid=\npid=8\n"), None);
    assert_eq!(lock_owner("nothing"), None);
}

#[test]
fn a_lock_without_an_owner_is_kept() {
    match acquire_next("/l", LockReply::Read(Ok("garbage".to_string()))) {
        LockAction::Failed(failure) => {
            assert_eq!(failure.kind(), ErrorKind::WouldBlock);
            assert_eq!(failure.message, "deployment semaphore is held at /l");
        }
        unexpected => panic!("{unexpected:?}"),
    }
    let gone = Failure::new(ErrorKind::NotFound, "gone".to_string());
    assert!(matches!(acquire_next("/l", LockReply::Removed(Err(gone))), LockAction::Create));
    for reply in [
        LockReply::Created(Err(other("denied"))),
        LockReply::Written(Err(other("denied"))),
        LockReply::Read(Err(other("denied"))),
        LockReply::Removed(Err(other("denied"))),
    ] {
        match acquire_next("/l", reply) {
            LockAction::Failed(failure) => assert_eq!(failure.message, "denied"),
            unexpected => panic!("{unexpected:?}"),
        }
    }
}

#[test]
fn slots_take_turns() {
    let three = config(&["a", "b", "c"]);
    let next = |active: Option<&str>| target_slot(&three, active).unwrap().name;
    assert_eq!(next(None), "a");
    assert_eq!(next(Some("a")), "b");
    assert_eq!(next(Some("b")), "c");
    assert_eq!(next(Some("c")), "a");
    assert_eq!(next(Some("unknown")), "b");
    let one = config(&["only"]);
    assert_eq!(target_slot(&one, Some("only")).unwrap().name, "only");
    let failure = target_slot(&config(&[]), None).unwrap_err();
    assert_eq!(failure.kind(), ErrorKind::InvalidInput);
    assert_eq!(failure.message, "at least one slot is required");
}

#[test]
fn the_active_slot_is_read() {
    let two = config(&["a", "b"]);
    assert_eq!(active_slot(&two, Ok(" b\n".to_string())).unwrap().unwrap(), "b");
    let missing = Failure::new(ErrorKind::NotFound, "x".to_string());
    assert_eq!(active_slot(&two, Err(missing.clone())).unwrap(), None);
    assert!(active_slot(&two, Err(other("denied"))).is_err());
    assert_eq!(read_optional_string(Ok(" 7 \n".to_string())).unwrap().unwrap(), "7");
    assert_eq!(read_optional_string(Err(missing)).unwrap(), None);
    assert!(read_optional_string(Err(other("denied"))).is_err());
    assert_eq!(status_slot(&two.slots[0], &None), "  a port=9001 pid=not running\n");
    assert_eq!(status_slot(&two.slots[1], &Some(" 5\n".to_string())), "  b port=9002 pid=5\n");
}

#[test]
fn applications_are_started_and_asked() {
    let config = config(&["a", "b"]);
    assert_eq!(launch_command(&config, &CONTEXT), "exec run '/r/1-a' 9001");
    assert_eq!(pid_contents(12), "12");
    let plan = wait_until_ready(&config, &CONTEXT);
    assert_eq!((plan.timeout_seconds, plan.interval_millis), (11, 12));
    match plan.probe {
        Probe::Tcp { address } => assert_eq!(address, "a.local:9001"),
        unexpected => panic!("{unexpected:?}"),
    }
    assert_eq!(
        tcp_timeout("1.2.3.4:5").message,
        "application did not accept TCP connections on 1.2.3.4:5"
    );
    assert_eq!(http_timeout(200, "u").message, "HTTP health check did not return 200 for u");
}

#[test]
fn waiting_ends_when_ready_late_or_gone() {
    let late = tcp_timeout("x");
    assert!(matches!(wait_next(&late, WaitReply::InTime(true)), WaitAction::Child));
    assert!(matches!(wait_next(&late, WaitReply::Running), WaitAction::Probe));
    assert!(matches!(wait_next(&late, WaitReply::Probed(false)), WaitAction::Sleep));
    assert!(matches!(wait_next(&late, WaitReply::Slept), WaitAction::Clock));
    assert!(matches!(wait_next(&late, WaitReply::Probed(true)), WaitAction::Ready));
    for (reply, kind, words) in [
        (WaitReply::InTime(false), ErrorKind::TimedOut, "application did not accept TCP connections on x"),
        (
            WaitReply::Exited("exit status: 3".to_string()),
            ErrorKind::Other,
            "application exited before becoming ready with status exit status: 3",
        ),
        (WaitReply::Unknown(other("denied")), ErrorKind::Other, "denied"),
    ] {
        match wait_next(&late, reply) {
            WaitAction::Failed(failure) => {
                assert_eq!(failure.kind(), kind);
                assert_eq!(failure.message, words);
            }
            unexpected => panic!("{unexpected:?}"),
        }
    }
}

#[test]
fn stopping_asks_before_it_kills() {
    assert!(matches!(stop_next(StopReply::Terminated), StopAction::Clock));
    assert!(matches!(stop_next(StopReply::InTime(true)), StopAction::Look));
    assert!(matches!(stop_next(StopReply::Gone(false)), StopAction::Pause));
    assert!(matches!(stop_next(StopReply::Paused), StopAction::Clock));
    assert!(matches!(stop_next(StopReply::InTime(false)), StopAction::Kill));
    assert!(matches!(stop_next(StopReply::Killed), StopAction::Stopped));
    assert!(matches!(stop_next(StopReply::Gone(true)), StopAction::Stopped));
    assert!(matches!(stop_next(StopReply::Unknown(other("x"))), StopAction::Failed(_)));
    assert!(matches!(process_to_stop(Ok(" 12\n".to_string())), Ok(PidFile::Pid(pid)) if pid == "12"));
    assert!(matches!(process_to_stop(Ok(" \n".to_string())), Ok(PidFile::Empty)));
    let missing = Failure::new(ErrorKind::NotFound, "x".to_string());
    assert!(matches!(process_to_stop(Err(missing)), Ok(PidFile::Missing)));
    assert!(process_to_stop(Err(other("denied"))).is_err());
}

fn shown(steps: &[FileStep]) -> Vec<String> {
    steps
        .iter()
        .map(|step| match step {
            FileStep::MakeDir(path) => format!("mkdir {path}"),
            FileStep::Write(path, contents) => {
                format!("write {path} {}", String::from_utf8(contents.clone()).unwrap())
            }
            FileStep::Rename(from, to) => format!("rename {from} {to}"),
            FileStep::Remove(path) => format!("remove {path}"),
            FileStep::Run(command) => format!("run {command}"),
        })
        .collect()
}

#[test]
fn the_switch_is_written_and_restored() {
    let config = config(&["a", "b"]);
    assert_eq!(
        shown(&promote(&config, &CONTEXT)),
        [
            "mkdir /n",
            "write /n/pass.tmp proxy_pass http://a.host:9001;\n",
            "rename /n/pass.tmp /n/pass.inc",
            "run reload",
        ]
    );
    assert_eq!(
        shown(&write_promotion(&config, &CONTEXT, None, "/t")),
        ["write /t proxy_pass http://a.host:9001;\n", "rename /t /n/pass.inc", "run reload"]
    );
    for (path, tmp) in [
        ("/n/pass", "/n/pass.tmp"),
        ("/n/.pass", "/n/.pass.tmp"),
        ("/n/a.b.inc", "/n/a.b.tmp"),
        ("/n/a.", "/n/a.tmp"),
        ("/n/a..b", "/n/a..tmp"),
        ("pass.inc", "pass.tmp"),
    ] {
        let mut other = self::config(&["a", "b"]);
        other.switch = SwitchConfig::NginxProxyPassInclude {
            path: path.to_string(),
            reload_command: "reload".to_string(),
            host: "h".to_string(),
        };
        assert!(shown(&promote(&other, &CONTEXT)).contains(&format!("rename {tmp} {path}")));
    }
    let before = capture_switch_state(Ok(b"old".to_vec())).unwrap();
    assert_eq!(
        shown(&restore_switch_state(&config, &before)),
        ["mkdir /n", "write /n/pass.tmp old", "rename /n/pass.tmp /n/pass.inc", "run reload"]
    );
    assert_eq!(
        shown(&write_restoration(&config, &before, None, "/t")),
        ["write /t old", "rename /t /n/pass.inc", "run reload"]
    );
    let missing = Failure::new(ErrorKind::NotFound, "x".to_string());
    let before = capture_switch_state(Err(missing)).unwrap();
    assert!(matches!(before, SwitchState::NginxProxyPassInclude { contents: None }));
    assert_eq!(
        shown(&restore_switch_state(&config, &before)),
        ["remove /n/pass.inc", "run reload"]
    );
    assert!(capture_switch_state(Err(other("denied"))).is_err());
    assert_eq!(
        shown(&write_active_state(&config, "a", "/r/é")),
        [
            "write /h/runtime/active-slot.tmp a",
            "write /h/runtime/active-release.tmp /r/é",
            "rename /h/runtime/active-slot.tmp /h/runtime/active-slot",
            "rename /h/runtime/active-release.tmp /h/runtime/active-release",
        ]
    );
}

#[test]
fn the_first_artifact_is_next() {
    let entry = |name: &str, is_file: bool| InboxEntry { name: name.to_string(), is_file };
    assert_eq!(next_artifact("/i", &vec![]), None);
    assert_eq!(next_artifact("/i", &vec![entry("a.tmp", true), entry("failed", false)]), None);
    assert_eq!(
        next_artifact("/i", &vec![entry("b.jar", true), entry("a.tmp", true), entry("b", true)]).unwrap(),
        "/i/b"
    );
    assert_eq!(next_artifact("/i", &vec![entry(".tmp", true)]).unwrap(), "/i/.tmp");
    assert_eq!(next_artifact("/i", &vec![entry("x.tmp.jar", true)]).unwrap(), "/i/x.tmp.jar");
    assert_eq!(release_path("/r", 17, Some("a.jar")), "/r/17-a.jar");
    assert_eq!(release_path("/r", 17, None), "/r/17-artifact");
    assert_eq!(quarantine_path("/i/failed", 17, None), "/i/failed/17-failed-artifact");
    let config = config(&["a"]);
    assert_eq!(import_release(&config, "/i/a.jar/", 17), "/h/releases/17-a.jar");
    assert_eq!(import_release(&config, "/i/..", 17), "/h/releases/17-artifact");
    assert_eq!(
        quarantine_failed_artifact(&config, "releases/17-a.jar", 18),
        "/h/inbox/failed/18-17-a.jar"
    );
    assert_eq!(quarantine_failed_artifact(&config, "/", 18), "/h/inbox/failed/18-failed-artifact");
    assert_eq!(artifact_name("/i/a.jar"), "a.jar");
    assert_eq!(artifact_name("/i/.."), "/i/..");
}

#[test]
fn the_daemon_goes_on_or_stops() {
    assert_eq!(serve_greeting("/i"), "doubleshot watching /i");
    let blocked = Failure::new(ErrorKind::WouldBlock, "held".to_string());
    let reply = ServeReply::Deployed("/i/a".to_string(), Err(blocked));
    assert_eq!(serve_message(&reply).unwrap(), "held");
    assert!(matches!(serve_next(reply), ServeAction::Sleep));
    let reply = ServeReply::Deployed("/i/a".to_string(), Err(other("bad")));
    assert_eq!(serve_message(&reply).unwrap(), "deployment failed for /i/a: bad");
    assert!(matches!(serve_next(reply), ServeAction::Quarantine(artifact) if artifact == "/i/a"));
    let reply = ServeReply::Deployed("/i/a".to_string(), Ok(()));
    assert!(serve_message(&reply).is_none());
    assert!(matches!(serve_next(reply), ServeAction::Look));
    assert!(matches!(serve_next(ServeReply::Found(Ok(None))), ServeAction::Sleep));
    assert!(matches!(serve_next(ServeReply::Slept), ServeAction::Look));
    assert!(matches!(serve_next(ServeReply::Quarantined(Ok(()))), ServeAction::Look));
    assert!(matches!(serve_next(ServeReply::Found(Err(other("x")))), ServeAction::Stop(_)));
    assert!(matches!(serve_next(ServeReply::Quarantined(Err(other("x")))), ServeAction::Stop(_)));
}

/// The reply that is a success in a stage.
fn success(stage: Stage) -> DeployReply {
    match stage {
        Stage::Import => DeployReply::Imported("/r/1-x".to_string()),
        Stage::ReadActive => DeployReply::Active(Some("a".to_string())),
        _ => DeployReply::Done,
    }
}

/// The stages of a deployment in which the replies with these numbers fail.
fn stages(config: &AppConfig, failing: &[usize]) -> (Vec<Stage>, Option<String>, Vec<Phase>) {
    let mut deployment = Deployment::new();
    let mut seen = vec![deployment.stage()];
    let mut told = Vec::new();
    let mut n = 0;
    while !matches!(deployment.stage(), Stage::Succeeded | Stage::Failed) {
        let reply = if failing.contains(&n) {
            DeployReply::Failed(other(&format!("failure {n}")))
        } else {
            success(deployment.stage())
        };
        deployment.reply(config, reply);
        seen.push(deployment.stage());
        told.extend(deployment.report().map(|(phase, _)| phase));
        n += 1;
    }
    (seen, deployment.failure().map(|failure| failure.message.clone()), told)
}

#[test]
fn a_deployment_keeps_to_its_script() {
    let two = config(&["a", "b"]);
    let good = [
        Stage::Lock,
        Stage::Import,
        Stage::ReadActive,
        Stage::StopTarget,
        Stage::Launch,
        Stage::AwaitReady,
        Stage::CaptureSwitch,
        Stage::Promote,
        Stage::Record,
        Stage::StopOld,
        Stage::Succeeded,
    ];
    assert_eq!(stages(&two, &[]).0, good);
    assert_eq!(stages(&two, &[]).1, None);
    for failing in 0..10 {
        let clean_up: &[Stage] = match failing {
            5 => &[Stage::StopLaunched, Stage::Quarantine, Stage::Failed],
            7 | 8 => &[
                Stage::RestoreSwitch,
                Stage::StopLaunched,
                Stage::Quarantine,
                Stage::Failed,
            ],
            _ => &[Stage::Failed],
        };
        let mut expected = good[..=failing].to_vec();
        expected.extend(clean_up);
        // The clean-up goes on whatever comes of it.
        for later in [vec![failing], (failing..20).collect()] {
            let (seen, failure, told) = stages(&two, &later);
            assert_eq!(seen, expected);
            assert_eq!(failure.unwrap(), format!("failure {failing}"));
            assert_eq!(told.last().copied(), if failing == 0 { None } else { Some(Phase::Failed) });
        }
    }
    let (_, _, told) = stages(&two, &[]);
    assert_eq!(
        told,
        [
            Phase::Started,
            Phase::Imported,
            Phase::Launching,
            Phase::Waiting,
            Phase::Ready,
            Phase::Switching,
            Phase::Succeeded,
        ]
    );
    let one = config(&["a"]);
    assert!(!stages(&one, &[]).0.contains(&Stage::StopOld));
    let (seen, failure, _) = stages(&config(&[]), &[]);
    assert_eq!(seen.last(), Some(&Stage::Failed));
    assert_eq!(failure.unwrap(), "at least one slot is required");
}

#[test]
fn events_are_written_and_read_back() {
    let mut log = String::new();
    for (artifact, phase, message) in [
        ("a.jar", Phase::Started, "x"),
        ("odd\tname\n\\n", Phase::Failed, "line\r\nline\\"),
        ("a.jar", Phase::Succeeded, ""),
    ] {
        log.push_str(&write_event(&DeployEvent {
            artifact: artifact.to_string(),
            phase,
            message: message.to_string(),
        }));
    }
    assert_eq!(log.lines().count(), 3);
    assert_eq!(log.lines().next(), Some("a.jar\tstarted\tx"));
    let events = read_log(&format!("garbage\n{log}a.jar\tready\thalf"));
    assert_eq!(events.len(), 3);
    assert_eq!(events[1].artifact, "odd\tname\n\\n");
    assert_eq!(events[1].phase, Phase::Failed);
    assert_eq!(events[1].message, "line\r\nline\\");
    assert_eq!(events[2].phase.name(), "succeeded");
}

#[test]
fn following_shows_each_event_once() {
    let event = |artifact: &str, phase: Phase, message: &str| {
        write_event(&DeployEvent {
            artifact: artifact.to_string(),
            phase,
            message: message.to_string(),
        })
    };
    let mut log = event("x", Phase::Started, "1");
    log.push_str(&event("y", Phase::Failed, "2"));
    let mut follower = Follower::new("x");
    let step = follower.follow(&log);
    assert_eq!(step.lines, ["[started] 1"]);
    assert!(matches!(step.end, FollowEnd::Open));
    assert!(follower.follow(&log).lines.is_empty());
    log.push_str(&event("x", Phase::Ready, "3"));
    log.push_str(&event("x", Phase::Succeeded, "4"));
    log.push_str(&event("x", Phase::Started, "later"));
    let step = follower.follow(&log);
    assert_eq!(step.lines, ["[ready] 3", "[succeeded] 4"]);
    assert!(matches!(step.end, FollowEnd::Succeeded));
    let mut other = Follower::new("y");
    match other.follow(&log).end {
        FollowEnd::Failed(failure) => assert_eq!(failure.message, "deployment failed for y: 2"),
        unexpected => panic!("{unexpected:?}"),
    }
}
