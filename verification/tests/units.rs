use doubleshot::config::{AppConfig, HealthConfig, LaunchConfig, SwitchConfig};
use doubleshot::env_file::read_env_file;
use doubleshot::failure::{ErrorKind, Failure};
use doubleshot::http::{parse_http_url, HttpUrl};
use doubleshot::lock::{acquire_next, LockAction, LockReply};
use doubleshot::nginx::files::wildcard_match;
use doubleshot::slots::{slot_label, SlotConfig, BLUE, GREEN};
use doubleshot::state::{active_slot, target_slot};
use doubleshot::template::{render_template, RenderContext};

fn context(artifact: &str) -> RenderContext<'_> {
    RenderContext {
        artifact,
        port: 8081,
        slot: BLUE,
        release: artifact,
    }
}

fn test_config(dir: &str, blue_port: u16, green_port: u16) -> AppConfig {
    AppConfig {
        inbox_dir: format!("{dir}/inbox"),
        releases_dir: format!("{dir}/releases"),
        runtime_dir: format!("{dir}/runtime"),
        slots: vec![
            SlotConfig {
                name: BLUE.to_string(),
                port: blue_port,
            },
            SlotConfig {
                name: GREEN.to_string(),
                port: green_port,
            },
        ],
        launch: LaunchConfig {
            command: "sleep 30 # {artifact} {port}".to_string(),
            env_files: vec![],
        },
        health: HealthConfig::Http {
            url: "http://127.0.0.1:{port}/health".to_string(),
            method: "GET".to_string(),
            expected_status: 200,
            headers: vec![],
            timeout_seconds: 2,
            interval_millis: 50,
        },
        switch: SwitchConfig::NginxProxyPassInclude {
            path: format!("{dir}/proxy-pass.inc"),
            reload_command: "true".to_string(),
            host: "127.0.0.1".to_string(),
        },
        poll_interval: 1,
        shutdown_timeout: 1,
    }
}

#[test]
fn renders_command_templates() {
    let artifact = "/tmp/my app.jar";
    let rendered = render_template(
        "java -jar {artifact} --port {port} --slot {slot}",
        &context(artifact),
    );

    assert_eq!(
        rendered,
        "java -jar '/tmp/my app.jar' --port 8081 --slot blue"
    );
}

#[test]
fn renders_colored_slot_labels() {
    assert_eq!(slot_label(BLUE), "\x1b[34m⏹\x1b[0m blue");
    assert_eq!(slot_label(GREEN), "\x1b[32m⏹\x1b[0m green");
}

#[test]
fn parses_http_health_urls() {
    assert_eq!(
        parse_http_url("http://127.0.0.1:8081/actuator/health").unwrap(),
        HttpUrl {
            host: "127.0.0.1".to_string(),
            port: 8081,
            path: "/actuator/health".to_string()
        }
    );
}

#[test]
fn chooses_next_slot_after_active_slot() {
    let config = AppConfig {
        inbox_dir: "/tmp/inbox".to_string(),
        releases_dir: "/tmp/releases".to_string(),
        runtime_dir: "/tmp/runtime".to_string(),
        slots: vec![
            SlotConfig {
                name: BLUE.to_string(),
                port: 8081,
            },
            SlotConfig {
                name: GREEN.to_string(),
                port: 8082,
            },
        ],
        launch: LaunchConfig {
            command: "run {artifact} {port}".to_string(),
            env_files: vec![],
        },
        health: HealthConfig::Tcp {
            host: "127.0.0.1".to_string(),
            timeout_seconds: 1,
            interval_millis: 1,
        },
        switch: SwitchConfig::NginxProxyPassInclude {
            path: "/tmp/proxy-pass.inc".to_string(),
            reload_command: "true".to_string(),
            host: "127.0.0.1".to_string(),
        },
        poll_interval: 1,
        shutdown_timeout: 1,
    };

    assert_eq!(target_slot(&config, None).unwrap().name, BLUE);
    assert_eq!(target_slot(&config, Some(BLUE)).unwrap().name, GREEN);
    assert_eq!(target_slot(&config, Some(GREEN)).unwrap().name, BLUE);
}

#[test]
fn ignores_unknown_active_slot_state() {
    let config = test_config("/tmp/unknown-active-slot", 8081, 8082);

    assert_eq!(active_slot(&config, Ok("purple".to_string())).unwrap(), None);
}

#[test]
fn deploy_lock_rejects_live_owner() {
    let path = "/tmp/live-lock/deploy.lock";
    let contents = format!("pid={}\n", 4321);

    let there = Failure::new(ErrorKind::AlreadyExists, "File exists".to_string());
    assert!(matches!(
        acquire_next(path, LockReply::Created(Err(there))),
        LockAction::Read
    ));
    match acquire_next(path, LockReply::Read(Ok(contents))) {
        LockAction::Ask(pid) => assert_eq!(pid, "4321"),
        other => panic!("expected a question for the owner, got {other:?}"),
    }
    match acquire_next(path, LockReply::Exists(true)) {
        LockAction::Failed(err) => assert_eq!(err.kind(), ErrorKind::WouldBlock),
        other => panic!("expected a failure, got {other:?}"),
    }
}

#[test]
fn parses_env_files_with_quotes_and_rejects_invalid_lines() {
    let valid = r#"
# comment
PLAIN=value
DOUBLE="quoted value"
SINGLE='single quoted'
"#;

    assert_eq!(
        read_env_file("valid.env", valid).unwrap(),
        vec![
            ("PLAIN".to_string(), "value".to_string()),
            ("DOUBLE".to_string(), "quoted value".to_string()),
            ("SINGLE".to_string(), "single quoted".to_string()),
        ]
    );

    assert_eq!(
        read_env_file("invalid.env", "NOT_A_PAIR\n").unwrap_err().kind(),
        ErrorKind::InvalidInput
    );
}

#[test]
fn matches_simple_wildcards() {
    assert!(wildcard_match("*.conf", "app.conf"));
    assert!(wildcard_match("api-*.conf", "api-prod.conf"));
    assert!(!wildcard_match("api-*.conf", "web-prod.conf"));
}
