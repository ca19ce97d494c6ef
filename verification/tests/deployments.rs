use std::collections::BTreeMap;

use doubleshot::config::{
    AppConfig, CommonOverrides, EnvValue, EnvValues, FileConfig, HealthConfig, LaunchConfig,
    SwitchConfig,
};
use doubleshot::deploy::{DeployReply, Deployment, Stage};
use doubleshot::events::{write_event, DeployEvent, FollowEnd, Follower};
use doubleshot::failure::{ErrorKind, Failure};
use doubleshot::http::{http_request, parse_http_url, response_status};
use doubleshot::lock::{
    acquire_next, lock_contents, release_message, release_step, LockAction, LockReply,
};
use doubleshot::process::{
    http_ready, http_timeout, launch_command, pid_contents, process_to_stop, stop_next,
    wait_next, wait_until_ready, PidFile, Probe, StopAction, StopReply, WaitAction, WaitReply,
};
use doubleshot::release::{
    artifact_name, import_release, next_artifact, quarantine_failed_artifact, ArtifactMode,
    InboxEntry,
};
use doubleshot::serve::{serve_message, serve_next, ServeAction, ServeReply};
use doubleshot::slots::{SlotFileConfig, SlotTable, BLUE, GREEN};
use doubleshot::state::{
    active_slot, read_optional_string, status_active_release, status_active_slot,
    status_directories, status_slot,
};
use doubleshot::switch::{
    capture_switch_state, command_failure, promote, restore_switch_state, write_active_state,
    FileStep, SwitchState,
};
use doubleshot::template::RenderContext;

const REMOTE_HOME: &str = "/opt/doubleshot";
const SSH_BLUE_PORT: u16 = 18081;
const SSH_GREEN_PORT: u16 = 18082;

/// A machine in memory: its files, its processes, and how the application on it
/// behaves.
struct World {
    files: BTreeMap<String, Vec<u8>>,
    running: BTreeMap<u32, String>,
    next_pid: u32,
    clock: u64,
    status: u16,
    events: bool,
    said: Vec<String>,
    started: Vec<String>,
    requests: Vec<String>,
}

impl World {
    fn new(status: u16) -> World {
        World {
            files: BTreeMap::new(),
            running: BTreeMap::new(),
            next_pid: 100,
            clock: 1_700_000_000,
            status,
            events: true,
            said: Vec::new(),
            started: Vec::new(),
            requests: Vec::new(),
        }
    }

    fn write(&mut self, path: &str, contents: &str) {
        self.files.insert(path.to_string(), contents.as_bytes().to_vec());
    }

    fn read_bytes(&self, path: &str) -> Result<Vec<u8>, Failure> {
        match self.files.get(path) {
            Some(contents) => Ok(contents.clone()),
            None => Err(Failure::new(
                ErrorKind::NotFound,
                "No such file or directory (os error 2)".to_string(),
            )),
        }
    }

    fn read(&self, path: &str) -> Result<String, Failure> {
        self.read_bytes(path).map(|contents| String::from_utf8(contents).unwrap())
    }

    fn rename(&mut self, from: &str, to: &str) -> Result<(), Failure> {
        let contents = self.read_bytes(from)?;
        self.files.remove(from);
        self.files.insert(to.to_string(), contents);
        Ok(())
    }

    fn take_steps(&mut self, steps: Vec<FileStep>) -> Result<(), Failure> {
        for step in steps {
            match step {
                FileStep::MakeDir(_) => {}
                FileStep::Write(path, contents) => {
                    self.files.insert(path, contents);
                }
                FileStep::Rename(from, to) => self.rename(&from, &to)?,
                FileStep::Remove(path) => {
                    self.files.remove(&path);
                }
                FileStep::Run(command) => {
                    if command != "true" {
                        return Err(command_failure("exit status: 1", &command));
                    }
                }
            }
        }
        Ok(())
    }

    fn lock(&mut self, path: &str) -> Result<(), Failure> {
        let mut action = LockAction::Create;
        loop {
            let reply = match action {
                LockAction::Create => LockReply::Created(if self.files.contains_key(path) {
                    Err(Failure::new(ErrorKind::AlreadyExists, "File exists".to_string()))
                } else {
                    self.write(path, "");
                    Ok(())
                }),
                LockAction::Write => {
                    let contents = lock_contents(1);
                    self.write(path, &contents);
                    LockReply::Written(Ok(()))
                }
                LockAction::Read => LockReply::Read(self.read(path)),
                LockAction::Ask(pid) => LockReply::Exists(pid == "1"),
                LockAction::Remove => {
                    self.files.remove(path);
                    LockReply::Removed(Ok(()))
                }
                LockAction::Held => return Ok(()),
                LockAction::Failed(failure) => return Err(failure),
            };
            action = acquire_next(path, reply);
        }
    }

    fn stop_process(&mut self, pid: &str) -> Result<(), Failure> {
        let pid: u32 = pid.parse().unwrap();
        let mut action = StopAction::Terminate;
        loop {
            let reply = match action {
                StopAction::Terminate => {
                    self.running.remove(&pid);
                    StopReply::Terminated
                }
                StopAction::Clock => StopReply::InTime(true),
                StopAction::Look => StopReply::Gone(!self.running.contains_key(&pid)),
                StopAction::Pause => StopReply::Paused,
                StopAction::Kill => StopReply::Killed,
                StopAction::Stopped => return Ok(()),
                StopAction::Failed(failure) => return Err(failure),
            };
            action = stop_next(reply);
        }
    }

    fn stop_slot(&mut self, config: &AppConfig, slot: &str) -> Result<(), Failure> {
        let file = config.pid_file(slot);
        match process_to_stop(self.read(&file))? {
            PidFile::Missing => return Ok(()),
            PidFile::Empty => {}
            PidFile::Pid(pid) => self.stop_process(&pid)?,
        }
        self.files.remove(&file);
        Ok(())
    }

    fn await_ready(
        &mut self,
        config: &AppConfig,
        context: &RenderContext<'_>,
        pid: u32,
    ) -> Result<(), Failure> {
        let plan = wait_until_ready(config, context);
        let Probe::Http { url, method, expected_status, headers } = plan.probe else {
            panic!("expected an HTTP check");
        };
        let late = http_timeout(expected_status, &url);
        let mut left = plan.timeout_seconds * 1000 / plan.interval_millis;
        let mut action = WaitAction::Clock;
        loop {
            let reply = match action {
                WaitAction::Clock => WaitReply::InTime(left > 0),
                WaitAction::Child => {
                    if self.running.contains_key(&pid) {
                        WaitReply::Running
                    } else {
                        WaitReply::Exited("exit status: 1".to_string())
                    }
                }
                WaitAction::Probe => {
                    let parsed = parse_http_url(&url)?;
                    self.requests.push(http_request(&method, &parsed, &headers));
                    let answer = format!("HTTP/1.1 {} Text\r\n\r\n", self.status);
                    WaitReply::Probed(http_ready(&response_status(&answer), expected_status))
                }
                WaitAction::Sleep => {
                    left -= 1;
                    WaitReply::Slept
                }
                WaitAction::Ready => return Ok(()),
                WaitAction::Failed(failure) => return Err(failure),
            };
            action = wait_next(&late, reply);
        }
    }

    fn quarantine(&mut self, config: &AppConfig, artifact: &str) -> Result<(), Failure> {
        if !self.files.contains_key(artifact) {
            return Ok(());
        }
        self.clock += 1;
        let to = quarantine_failed_artifact(config, artifact, self.clock);
        self.rename(artifact, &to)
    }

    fn deploy(
        &mut self,
        config: &AppConfig,
        artifact: &str,
        mode: ArtifactMode,
    ) -> Result<(), Failure> {
        let result = self.deploy_locked(config, artifact, mode);
        if !matches!(&result, Err(failure) if failure.kind() == ErrorKind::WouldBlock) {
            self.files.remove(&config.lock_file());
        }
        result
    }

    fn deploy_locked(
        &mut self,
        config: &AppConfig,
        artifact: &str,
        mode: ArtifactMode,
    ) -> Result<(), Failure> {
        let mut deployment = Deployment::new();
        let mut previous: Option<SwitchState> = None;
        let mut pid: u32 = 0;
        let log = config.events_file();
        loop {
            self.said.extend(deployment.announcements());
            if let (true, Some((phase, message))) = (self.events, deployment.report()) {
                let line = write_event(&DeployEvent {
                    artifact: artifact_name(artifact),
                    phase,
                    message,
                });
                let before = self.read(&log).unwrap_or_default();
                self.write(&log, &format!("{before}{line}"));
            }
            let release = deployment.release().cloned().unwrap_or_default();
            let (slot, port) = match deployment.target() {
                Some(target) => (target.name.clone(), target.port),
                None => (String::new(), 0),
            };
            let context = RenderContext {
                artifact: &release,
                port,
                slot: &slot,
                release: &release,
            };
            let SwitchConfig::NginxProxyPassInclude { path, .. } = &config.switch;
            let done = match deployment.stage() {
                Stage::Lock => self.lock(&config.lock_file()),
                Stage::Import => {
                    self.clock += 1;
                    let to = import_release(config, artifact, self.clock);
                    let moved = match mode {
                        ArtifactMode::Move => self.rename(artifact, &to),
                        ArtifactMode::Copy => self.read_bytes(artifact).map(|contents| {
                            self.files.insert(to.clone(), contents);
                        }),
                    };
                    let reply = match moved {
                        Ok(()) => DeployReply::Imported(to),
                        Err(failure) => DeployReply::Failed(failure),
                    };
                    deployment.reply(config, reply);
                    continue;
                }
                Stage::ReadActive => {
                    let reply = match active_slot(config, self.read(&config.active_slot_file())) {
                        Ok(active) => DeployReply::Active(active),
                        Err(failure) => DeployReply::Failed(failure),
                    };
                    deployment.reply(config, reply);
                    continue;
                }
                Stage::StopTarget => self.stop_slot(config, &slot),
                Stage::Launch => {
                    self.started.push(launch_command(config, &context));
                    pid = self.next_pid;
                    self.next_pid += 1;
                    self.running.insert(pid, slot.clone());
                    self.write(&config.pid_file(&slot), &pid_contents(pid));
                    Ok(())
                }
                Stage::AwaitReady => self.await_ready(config, &context, pid),
                Stage::CaptureSwitch => match capture_switch_state(self.read_bytes(path)) {
                    Ok(state) => {
                        previous = Some(state);
                        Ok(())
                    }
                    Err(failure) => Err(failure),
                },
                Stage::Promote => self.take_steps(promote(config, &context)),
                Stage::Record => self.take_steps(write_active_state(config, &slot, &release)),
                Stage::StopOld => {
                    let old = deployment.active().cloned().unwrap();
                    self.stop_slot(config, &old)
                }
                Stage::RestoreSwitch => {
                    self.take_steps(restore_switch_state(config, previous.as_ref().unwrap()))
                }
                Stage::StopLaunched => {
                    let stopped = self.stop_process(&pid.to_string());
                    self.files.remove(&config.pid_file(&slot));
                    stopped
                }
                Stage::Quarantine => self.quarantine(config, &release),
                Stage::Succeeded => return Ok(()),
                Stage::Failed => return Err(deployment.failure().cloned().unwrap()),
            };
            let reply = match done {
                Ok(()) => DeployReply::Done,
                Err(failure) => DeployReply::Failed(failure),
            };
            deployment.reply(config, reply);
        }
    }

    /// Serves until there is nothing to do.
    fn serve(&mut self, config: &AppConfig) {
        let mut action = ServeAction::Look;
        loop {
            let reply = match action {
                ServeAction::Look => {
                    let inbox = format!("{}/", config.inbox_dir);
                    let entries: Vec<InboxEntry> = self
                        .files
                        .keys()
                        .filter_map(|path| path.strip_prefix(&inbox))
                        .filter(|name| !name.contains('/'))
                        .map(|name| InboxEntry { name: name.to_string(), is_file: true })
                        .collect();
                    ServeReply::Found(Ok(next_artifact(&config.inbox_dir, &entries)))
                }
                ServeAction::Deploy(artifact) => {
                    let result = self.deploy(config, &artifact, ArtifactMode::Move);
                    ServeReply::Deployed(artifact, result)
                }
                ServeAction::Sleep => return,
                ServeAction::Quarantine(artifact) => {
                    ServeReply::Quarantined(self.quarantine(config, &artifact))
                }
                ServeAction::Stop(failure) => panic!("serve stopped: {failure:?}"),
            };
            if let Some(words) = serve_message(&reply) {
                self.said.push(words);
            }
            action = serve_next(reply);
        }
    }

    fn upload_artifact(&mut self, config: &AppConfig, artifact: &str, contents: &str) {
        self.write(&format!("{}/{artifact}", config.inbox_dir), contents);
    }

    /// Follows an artifact until its deployment is over, or for as many looks
    /// at the log as there are seconds.
    fn follow(
        &self,
        config: &AppConfig,
        artifact: &str,
        timeout_seconds: u64,
    ) -> (String, Result<(), Failure>) {
        let mut follower = Follower::new(artifact);
        let mut stdout = String::new();
        for _ in 0..timeout_seconds {
            let log = self
                .read(&config.events_file())
                .unwrap_or_default();
            let step = follower.follow(&log);
            for line in step.lines {
                stdout.push_str(&line);
                stdout.push('\n');
            }
            match step.end {
                FollowEnd::Open => {}
                FollowEnd::Succeeded => return (stdout, Ok(())),
                FollowEnd::Failed(failure) => return (stdout, Err(failure)),
            }
        }
        (stdout, Err(follower.timed_out()))
    }

    fn status(&self, config: &AppConfig) -> String {
        let active = active_slot(config, self.read(&config.active_slot_file())).unwrap();
        let release = read_optional_string(self.read(&config.active_release_file())).unwrap();
        let mut stdout = status_directories(config);
        stdout.push_str(&status_active_slot(&active));
        stdout.push_str(&status_active_release(&release));
        stdout.push_str("slots:\n");
        for slot in &config.slots {
            let pid = read_optional_string(self.read(&config.pid_file(&slot.name))).unwrap();
            stdout.push_str(&status_slot(slot, &pid));
        }
        stdout
    }
}

fn missing() -> EnvValues {
    EnvValues {
        home: None,
        java: EnvValue::Missing,
        blue_port: EnvValue::Missing,
        green_port: EnvValue::Missing,
        app_host: EnvValue::Missing,
        env_file: None,
        health_timeout_seconds: EnvValue::Missing,
        health_interval_millis: EnvValue::Missing,
        nginx_proxy_pass: None,
        nginx_reload: EnvValue::Missing,
        poll_seconds: EnvValue::Missing,
        shutdown_timeout_seconds: EnvValue::Missing,
    }
}

fn deploy_config(expected_status: u16, blue_port: u16, green_port: u16, reload: &str) -> AppConfig {
    let mut slots = SlotTable::new();
    slots.insert(BLUE.to_string(), SlotFileConfig { port: blue_port });
    slots.insert(GREEN.to_string(), SlotFileConfig { port: green_port });
    let file = FileConfig {
        home: Some(REMOTE_HOME.to_string()),
        poll_seconds: Some(1),
        shutdown_timeout_seconds: Some(1),
        slots: Some(slots),
        launch: Some(LaunchConfig {
            command: "python3 -m http.server {port} --bind 127.0.0.1 --directory /opt/doubleshot/www # {artifact}".to_string(),
            env_files: vec![],
        }),
        health: Some(HealthConfig::Http {
            url: "http://127.0.0.1:{port}/".to_string(),
            method: "GET".to_string(),
            expected_status,
            headers: vec![],
            timeout_seconds: 2,
            interval_millis: 100,
        }),
        switch: Some(SwitchConfig::NginxProxyPassInclude {
            path: format!("{REMOTE_HOME}/proxy-pass.inc"),
            reload_command: reload.to_string(),
            host: "127.0.0.1".to_string(),
        }),
        ..FileConfig::empty()
    };
    let overrides = CommonOverrides {
        home: None,
        inbox_dir: None,
        releases_dir: None,
        runtime_dir: None,
        poll_seconds: None,
    };
    let defaults = AppConfig::from_env_defaults(&missing()).unwrap();
    AppConfig::load(file, defaults, &overrides).unwrap()
}

fn ssh_deploy_config(expected_status: u16) -> AppConfig {
    deploy_config(expected_status, SSH_BLUE_PORT, SSH_GREEN_PORT, "true")
}

#[test]
fn ssh_follow_streams_successful_inbox_deployment() {
    let config = ssh_deploy_config(200);
    let mut world = World::new(200);
    world.upload_artifact(&config, "app-success.jar", "payload");
    world.serve(&config);

    let (stdout, result) = world.follow(&config, "app-success.jar", 20);

    assert!(result.is_ok(), "follow failed\nstdout:\n{stdout}");
    for phase in [
        "[started]",
        "[imported]",
        "[launching]",
        "[waiting]",
        "[ready]",
        "[switching]",
        "[succeeded]",
    ] {
        assert!(
            stdout.contains(phase),
            "missing {phase} in follow output:\n{}",
            stdout
        );
    }
}

#[test]
fn ssh_follow_reports_failed_health_and_serve_quarantines_artifact() {
    let config = ssh_deploy_config(418);
    let mut world = World::new(200);
    world.upload_artifact(&config, "app-fail.jar", "payload");
    world.serve(&config);

    let (stdout, result) = world.follow(&config, "app-fail.jar", 15);

    assert!(result.is_err(), "follow unexpectedly succeeded\nstdout:\n{stdout}");
    assert!(
        stdout.contains("[failed] HTTP health check did not return 418"),
        "unexpected follow output:\n{}",
        stdout
    );
    assert!(!world.files.contains_key("/opt/doubleshot/runtime/active-slot"));
    assert!(world
        .files
        .keys()
        .any(|path| path.starts_with("/opt/doubleshot/inbox/failed/") && path.ends_with("app-fail.jar")));
    assert!(world.running.is_empty());
}

#[test]
fn ssh_status_reflects_remote_deployment_state() {
    let config = ssh_deploy_config(200);
    let mut world = World::new(200);
    world.upload_artifact(&config, "app-status.jar", "payload");
    world.serve(&config);
    let (stdout, follow) = world.follow(&config, "app-status.jar", 20);
    assert!(follow.is_ok(), "follow failed\nstdout:\n{stdout}");

    let status = world.status(&config);

    assert!(status.contains("active slot: blue"));
    assert!(status.contains("active release: /opt/doubleshot/releases/"));
    assert!(status.contains("app-status.jar"));
    assert!(status.contains("runtime: /opt/doubleshot/runtime"));
    assert!(status.contains("blue port=18081 pid="));
    assert!(status.contains("green port=18082 pid=not running"));
}

#[test]
fn ssh_serve_deploys_two_artifacts_and_flips_slots() {
    let config = ssh_deploy_config(200);
    let mut world = World::new(200);
    world.upload_artifact(&config, "app-blue.jar", "blue");
    world.serve(&config);
    let (first, first_result) = world.follow(&config, "app-blue.jar", 20);
    world.upload_artifact(&config, "app-green.jar", "green");
    world.serve(&config);
    let (second, second_result) = world.follow(&config, "app-green.jar", 20);

    assert!(first_result.is_ok(), "first follow failed\nstdout:\n{first}");
    assert!(second_result.is_ok(), "second follow failed\nstdout:\n{second}");
    assert!(first.contains("[succeeded] blue active on port 18081"));
    assert!(second.contains("[succeeded] green active on port 18082"));
    let state = format!(
        "{}{}",
        world.read("/opt/doubleshot/runtime/active-slot").unwrap(),
        world.read("/opt/doubleshot/proxy-pass.inc").unwrap()
    );
    assert!(state.contains("green"));
    assert!(state.contains("proxy_pass http://127.0.0.1:18082;"));
    assert_eq!(world.running.values().collect::<Vec<_>>(), ["green"]);
}

#[test]
fn ssh_follow_times_out_for_missing_artifact() {
    let config = ssh_deploy_config(200);
    let world = World::new(200);

    let (stdout, result) = world.follow(&config, "missing.jar", 2);

    let failure = result.unwrap_err();
    assert_eq!(stdout, "");
    assert_eq!(failure.kind(), ErrorKind::TimedOut);
    assert!(failure
        .message
        .contains("no deployment events arrived within timeout for missing.jar"));
}

#[test]
fn direct_deploy_promotes_first_slot_against_http_container() {
    let config = deploy_config(200, 8991, 8992, "true");
    let mut world = World::new(200);
    world.events = false;
    world.write("/work/artifact.txt", "payload");

    world.deploy(&config, "/work/artifact.txt", ArtifactMode::Copy).unwrap();

    assert_eq!(world.read("/opt/doubleshot/runtime/active-slot").unwrap(), "blue");
    assert!(world
        .read("/opt/doubleshot/runtime/active-release")
        .unwrap()
        .contains("artifact.txt"));
    assert_eq!(
        world.read("/opt/doubleshot/proxy-pass.inc").unwrap(),
        "proxy_pass http://127.0.0.1:8991;\n"
    );
    assert_eq!(world.read("/work/artifact.txt").unwrap(), "payload");
    assert_eq!(
        world.said,
        [
            "deploying /opt/doubleshot/releases/1700000001-artifact.txt",
            "traffic: none -> \x1b[34m⏹\x1b[0m blue on port 8991",
            "traffic switched: \x1b[34m⏹\x1b[0m blue active on port 8991",
        ]
    );
    assert_eq!(
        world.started,
        ["exec python3 -m http.server 8991 --bind 127.0.0.1 --directory /opt/doubleshot/www # '/opt/doubleshot/releases/1700000001-artifact.txt'"]
    );
    assert_eq!(
        world.requests,
        ["GET / HTTP/1.1\r\nHost: 127.0.0.1\r\nConnection: close\r\n\r\n"]
    );
    assert!(!world.files.contains_key("/opt/doubleshot/runtime/deployments.log"));
    assert!(!world.files.contains_key("/opt/doubleshot/runtime/deploy.lock"));
}

#[test]
fn concurrent_deploy_rejects_second_runner_without_state_drift() {
    let config = deploy_config(200, 8991, 8992, "true");
    let mut world = World::new(200);
    world.write("/work/first.txt", "first");
    world.write("/work/second.txt", "second");
    world.deploy(&config, "/work/first.txt", ArtifactMode::Copy).unwrap();
    world.write(&config.lock_file(), &lock_contents(1));

    let second = world.deploy(&config, "/work/second.txt", ArtifactMode::Copy).unwrap_err();

    assert_eq!(second.kind(), ErrorKind::WouldBlock);
    assert!(second.message.contains("deployment semaphore is held"));
    assert_eq!(world.read("/opt/doubleshot/runtime/active-slot").unwrap(), "blue");
    assert!(world
        .read("/opt/doubleshot/runtime/active-release")
        .unwrap()
        .contains("first.txt"));
    assert_eq!(
        world.read("/opt/doubleshot/proxy-pass.inc").unwrap(),
        "proxy_pass http://127.0.0.1:8991;\n"
    );
}

#[test]
fn http_health_success_accepts_expected_status() {
    let config = deploy_config(200, 8993, 8994, "true");
    let mut world = World::new(200);
    world.write("/work/artifact.txt", "payload");

    world.deploy(&config, "/work/artifact.txt", ArtifactMode::Copy).unwrap();

    assert_eq!(world.read("/opt/doubleshot/runtime/active-slot").unwrap(), "blue");
}

#[test]
fn http_health_failure_blocks_promotion() {
    let config = deploy_config(201, 8995, 8996, "true");
    let mut world = World::new(200);
    world.write("/work/artifact.txt", "payload");

    let failure = world.deploy(&config, "/work/artifact.txt", ArtifactMode::Copy).unwrap_err();

    assert_eq!(failure.kind(), ErrorKind::TimedOut);
    assert_eq!(
        failure.message,
        "HTTP health check did not return 201 for http://127.0.0.1:8995/"
    );
    assert!(!world.files.contains_key("/opt/doubleshot/runtime/active-slot"));
    assert!(!world.files.contains_key("/opt/doubleshot/proxy-pass.inc"));
}

#[test]
fn deploy_lock_recovers_dead_owner() {
    let path = "/tmp/stale-lock/deploy.lock";
    let mut world = World::new(200);
    world.write(path, "pid=999999999\n");

    world.lock(path).unwrap();

    assert!(world.read(path).unwrap().contains("pid="));
    world.take_steps(vec![release_step(path)]).unwrap();
    assert!(!world.files.contains_key(path));
    let failure = Failure::new(ErrorKind::Other, "denied".to_string());
    assert_eq!(
        release_message(path, &failure),
        "failed to remove lock /tmp/stale-lock/deploy.lock: denied"
    );
}

#[test]
fn failed_promotion_restores_switch_and_stops_new_slot() {
    let config = deploy_config(200, 18081, 18082, "false");
    let mut world = World::new(200);
    world.write(&config.active_slot_file(), BLUE);
    world.write(&config.active_release_file(), "/old/release.jar");
    world.write(
        "/opt/doubleshot/proxy-pass.inc",
        "proxy_pass http://127.0.0.1:18081;\n",
    );
    let release = "/opt/doubleshot/releases/artifact.txt";
    world.write(release, "payload");
    let context = RenderContext {
        artifact: release,
        port: 18082,
        slot: GREEN,
        release,
    };
    world.running.insert(7, GREEN.to_string());
    world.write(&config.pid_file(GREEN), &pid_contents(7));

    let previous_switch =
        capture_switch_state(world.read_bytes("/opt/doubleshot/proxy-pass.inc")).unwrap();
    let err = world.take_steps(promote(&config, &context)).unwrap_err();
    assert_eq!(
        world.read("/opt/doubleshot/proxy-pass.inc").unwrap(),
        "proxy_pass http://127.0.0.1:18082;\n"
    );
    assert!(world.take_steps(restore_switch_state(&config, &previous_switch)).is_err());
    world.stop_slot(&config, GREEN).unwrap();

    assert_eq!(err.kind(), ErrorKind::Other);
    assert_eq!(world.read(&config.active_slot_file()).unwrap(), BLUE);
    assert_eq!(
        world.read(&config.active_release_file()).unwrap(),
        "/old/release.jar"
    );
    assert_eq!(
        world.read("/opt/doubleshot/proxy-pass.inc").unwrap(),
        "proxy_pass http://127.0.0.1:18081;\n"
    );
    assert!(!world.files.contains_key(&config.pid_file(GREEN)));
    assert!(world.running.is_empty());
}

#[test]
fn a_deployment_whose_promotion_fails_is_undone() {
    let config = deploy_config(200, 18081, 18082, "false");
    let mut world = World::new(200);
    world.write(&config.active_slot_file(), BLUE);
    world.write(&config.active_release_file(), "/old/release.jar");
    world.write(
        "/opt/doubleshot/proxy-pass.inc",
        "proxy_pass http://127.0.0.1:18081;\n",
    );
    world.write("/work/artifact.txt", "payload");

    let err = world.deploy(&config, "/work/artifact.txt", ArtifactMode::Copy).unwrap_err();

    assert_eq!(err.kind(), ErrorKind::Other);
    assert_eq!(err.message, "command exited with exit status: 1: false");
    assert_eq!(world.read(&config.active_slot_file()).unwrap(), BLUE);
    assert_eq!(
        world.read(&config.active_release_file()).unwrap(),
        "/old/release.jar"
    );
    assert_eq!(
        world.read("/opt/doubleshot/proxy-pass.inc").unwrap(),
        "proxy_pass http://127.0.0.1:18081;\n"
    );
    assert!(!world.files.contains_key(&config.pid_file(GREEN)));
    assert!(world.running.is_empty());
}

#[test]
fn a_blocked_artifact_is_deployed_later() {
    let config = ssh_deploy_config(200);
    let mut world = World::new(200);
    world.upload_artifact(&config, "app.jar", "payload");
    world.upload_artifact(&config, "app.jar.tmp", "half");
    world.write(&config.lock_file(), &lock_contents(1));
    world.serve(&config);
    assert_eq!(
        world.said,
        ["deployment semaphore is held at /opt/doubleshot/runtime/deploy.lock"]
    );
    assert!(!world.files.contains_key("/opt/doubleshot/runtime/deployments.log"));
    assert!(world.files.contains_key("/opt/doubleshot/inbox/app.jar"));

    world.files.remove(&config.lock_file());
    world.serve(&config);
    assert_eq!(world.read(&config.active_slot_file()).unwrap(), "blue");
    assert!(!world.files.contains_key("/opt/doubleshot/inbox/app.jar"));
    assert!(world.files.contains_key("/opt/doubleshot/inbox/app.jar.tmp"));
}

#[test]
fn an_artifact_that_cannot_be_imported_fails() {
    let config = ssh_deploy_config(200);
    let mut world = World::new(200);
    let failure = world.deploy(&config, "/work/nothing.jar", ArtifactMode::Move).unwrap_err();
    assert_eq!(failure.kind(), ErrorKind::NotFound);
    let (stdout, _) = world.follow(&config, "nothing.jar", 1);
    assert_eq!(
        stdout,
        "[started] deployment started\n[failed] No such file or directory (os error 2)\n"
    );
}
