use doubleshot::config::{
    default_expected_status, default_http_method, load_file_config, parse_env, path_env,
    validate_config, AppConfig, CommonOverrides, EnvValue, EnvValues, FileConfig, HealthConfig,
    LaunchConfig, SwitchConfig, DEFAULT_CONFIG,
};
use doubleshot::env_file::{read_env_file, unquote_env_value};
use doubleshot::failure::{ErrorKind, Failure};
use doubleshot::slots::{
    active_slot_label, slot_label, slots_from_file, sort_slots, SlotConfig, SlotFileConfig,
    SlotTable, BLUE, GREEN,
};

fn text(value: &str) -> EnvValue {
    EnvValue::Text(value.to_string())
}

fn unset() -> EnvValues {
    EnvValues {
        home: None,
        java: EnvValue::Missing,
        blue_port: EnvValue::Missing,
        green_port: EnvValue::Missing,
        app_host: EnvValue::Missing,
        env_file: None,
        health_timeout_seconds: EnvValue::Missing,
        health_interval_millis: EnvValue::Missing,
        nginx_proxy_pass: None,
        nginx_reload: EnvValue::Missing,
        poll_seconds: EnvValue::Missing,
        shutdown_timeout_seconds: EnvValue::Missing,
    }
}

fn nothing() -> CommonOverrides {
    CommonOverrides {
        home: None,
        inbox_dir: None,
        releases_dir: None,
        runtime_dir: None,
        poll_seconds: None,
    }
}

fn load(file: FileConfig, env: &EnvValues, overrides: &CommonOverrides) -> Result<AppConfig, Failure> {
    AppConfig::load(file, AppConfig::from_env_defaults(env)?, overrides)
}

#[test]
fn defaults_hold_where_nothing_is_said() {
    let config = load(FileConfig::empty(), &unset(), &nothing()).unwrap();
    assert_eq!(config.inbox_dir, "/opt/doubleshot/inbox");
    assert_eq!(config.releases_dir, "/opt/doubleshot/releases");
    assert_eq!(config.runtime_dir, "/opt/doubleshot/runtime");
    assert_eq!(config.slots[0].name, BLUE);
    assert_eq!(config.slots[0].port, 8081);
    assert_eq!(config.slots[1].name, GREEN);
    assert_eq!(config.slots[1].port, 8082);
    assert_eq!(
        config.launch.command,
        "/usr/bin/java -Dserver.port={port} -jar {artifact}"
    );
    assert!(config.launch.env_files.is_empty());
    match &config.health {
        HealthConfig::Tcp { host, timeout_seconds, interval_millis } => {
            assert_eq!(host, "127.0.0.1");
            assert_eq!((*timeout_seconds, *interval_millis), (120, 1000));
        }
        other => panic!("unexpected {other:?}"),
    }
    let SwitchConfig::NginxProxyPassInclude { path, reload_command, host } = &config.switch;
    assert_eq!(path, "/etc/nginx/doubleshot/proxy-pass.inc");
    assert_eq!(reload_command, "nginx -s reload");
    assert_eq!(host, "127.0.0.1");
    assert_eq!((config.poll_interval, config.shutdown_timeout), (5, 20));
    assert_eq!(config.lock_file(), "/opt/doubleshot/runtime/deploy.lock");
    assert_eq!(config.active_slot_file(), "/opt/doubleshot/runtime/active-slot");
    assert_eq!(config.active_release_file(), "/opt/doubleshot/runtime/active-release");
    assert_eq!(config.pid_file("blue"), "/opt/doubleshot/runtime/blue.pid");
    assert_eq!(config.log_file("blue"), "/opt/doubleshot/runtime/blue.log");
    assert_eq!(config.events_file(), "/opt/doubleshot/runtime/deployments.log");
    assert_eq!(config.failed_dir(), "/opt/doubleshot/inbox/failed");
    assert_eq!(DEFAULT_CONFIG, "doubleshot.toml");
}

#[test]
fn the_environment_sets_defaults() {
    let env = EnvValues {
        home: Some("/srv".to_string()),
        java: text("/opt/java"),
        blue_port: text("1"),
        green_port: text("2"),
        app_host: text("10.0.0.1"),
        env_file: Some("/srv/app.env".to_string()),
        health_timeout_seconds: text("3"),
        health_interval_millis: text("4"),
        nginx_proxy_pass: Some("/srv/pass.inc".to_string()),
        nginx_reload: text("reload"),
        poll_seconds: text("6"),
        shutdown_timeout_seconds: text("7"),
    };
    let config = load(FileConfig::empty(), &env, &nothing()).unwrap();
    assert_eq!(config.runtime_dir, "/srv/runtime");
    assert_eq!((config.slots[0].port, config.slots[1].port), (1, 2));
    assert_eq!(config.launch.command, "/opt/java -Dserver.port={port} -jar {artifact}");
    assert_eq!(config.launch.env_files, ["/srv/app.env"]);
    assert!(matches!(
        &config.health,
        HealthConfig::Tcp { host, timeout_seconds: 3, interval_millis: 4 } if host == "10.0.0.1"
    ));
    let SwitchConfig::NginxProxyPassInclude { path, reload_command, host } = &config.switch;
    assert_eq!((path.as_str(), reload_command.as_str(), host.as_str()), ("/srv/pass.inc", "reload", "10.0.0.1"));
    assert_eq!((config.poll_interval, config.shutdown_timeout), (6, 7));
}

#[test]
fn the_first_bad_number_is_reported() {
    let mut env = unset();
    env.green_port = text("70000");
    env.poll_seconds = text("x");
    let failure = AppConfig::from_env_defaults(&env).unwrap_err();
    assert_eq!(failure.kind(), ErrorKind::InvalidInput);
    assert_eq!(
        failure.message,
        "invalid value for DOUBLESHOT_GREEN_PORT: number too large to fit in target type"
    );
    env.green_port = EnvValue::Missing;
    assert_eq!(
        AppConfig::from_env_defaults(&env).unwrap_err().message,
        "invalid value for DOUBLESHOT_POLL_SECONDS: invalid digit found in string"
    );
    env.blue_port = text("");
    assert_eq!(
        AppConfig::from_env_defaults(&env).unwrap_err().message,
        "invalid value for DOUBLESHOT_BLUE_PORT: cannot parse integer from empty string"
    );
    env.blue_port = EnvValue::NotUnicode("not text".to_string());
    assert_eq!(AppConfig::from_env_defaults(&env).unwrap_err().message, "not text");
    assert_eq!(parse_env("N", &EnvValue::Missing, 5, 9).unwrap(), 5);
    assert_eq!(parse_env("N", &text("+9"), 5, 9).unwrap(), 9);
    assert!(parse_env("N", &text("10"), 5, 9).is_err());
    assert_eq!(path_env(&None, "/d"), "/d");
}

#[test]
fn text_that_is_not_unicode_leaves_the_default() {
    let mut env = unset();
    env.java = EnvValue::NotUnicode("not text".to_string());
    let config = load(FileConfig::empty(), &env, &nothing()).unwrap();
    assert!(config.launch.command.starts_with("/usr/bin/java "));
}

#[test]
fn the_command_line_comes_before_the_file() {
    let mut file = FileConfig::sample();
    file.inbox_dir = Some("/file/inbox".to_string());
    file.releases_dir = Some("/file/releases".to_string());
    let overrides = CommonOverrides {
        home: Some("/cli".to_string()),
        inbox_dir: None,
        releases_dir: Some("/cli/r".to_string()),
        runtime_dir: None,
        poll_seconds: Some(99),
    };
    let config = load(file, &unset(), &overrides).unwrap();
    assert_eq!(config.inbox_dir, "/file/inbox");
    assert_eq!(config.releases_dir, "/cli/r");
    assert_eq!(config.runtime_dir, "/cli/runtime");
    assert_eq!(config.poll_interval, 99);
    assert_eq!(config.shutdown_timeout, 20);
}

#[test]
fn the_sample_can_be_worked_with() {
    let sample = FileConfig::sample();
    assert_eq!(sample.slots.as_ref().unwrap().get(BLUE).unwrap().port, 8081);
    assert_eq!(sample.slots.as_ref().unwrap().get(GREEN).unwrap().port, 8082);
    let config = load(sample, &unset(), &nothing()).unwrap();
    assert_eq!(config.launch.env_files, ["/opt/bankerbee/prod.env"]);
    assert!(matches!(
        &config.health,
        HealthConfig::Http { url, method, expected_status: 200, headers, timeout_seconds: 120, interval_millis: 1000 }
            if url == "http://127.0.0.1:{port}/actuator/health" && method == "GET" && headers.is_empty()
    ));
    let SwitchConfig::NginxProxyPassInclude { reload_command, .. } = &config.switch;
    assert_eq!(reload_command, "sudo nginx -t && sudo systemctl reload nginx");
    assert_eq!(default_http_method(), "GET");
    assert_eq!(default_expected_status(), 200);
}

#[test]
fn a_configuration_without_slots_or_placeholders_is_refused() {
    let mut file = FileConfig::sample();
    file.slots = Some(SlotTable::new());
    let failure = load(file, &unset(), &nothing()).unwrap_err();
    assert_eq!(failure.kind(), ErrorKind::InvalidInput);
    assert_eq!(failure.message, "at least one deployment slot is required");
    for command in ["run {artifact}", "run {port}", "run"] {
        let mut file = FileConfig::sample();
        file.launch = Some(LaunchConfig {
            command: command.to_string(),
            env_files: vec![],
        });
        let failure = load(file, &unset(), &nothing()).unwrap_err();
        assert_eq!(failure.message, "launch.command must include {artifact} and {port}");
    }
    let config = load(FileConfig::empty(), &unset(), &nothing()).unwrap();
    assert!(validate_config(&config).is_ok());
}

#[test]
fn a_missing_file_says_nothing_unless_it_was_named() {
    let missing = Failure::new(ErrorKind::NotFound, "no file".to_string());
    assert!(load_file_config(false, Err(missing.clone())).unwrap().home.is_none());
    assert_eq!(
        load_file_config(true, Err(missing)).unwrap_err().kind(),
        ErrorKind::NotFound
    );
    let other = Failure::new(ErrorKind::InvalidData, "bad".to_string());
    assert_eq!(load_file_config(false, Err(other)).unwrap_err().message, "bad");
    assert_eq!(
        load_file_config(true, Ok(FileConfig::sample())).unwrap().poll_seconds,
        Some(5)
    );
}

#[test]
fn slots_stand_in_the_order_of_their_names() {
    let mut table = SlotTable::new();
    for (name, port) in [("m", 1), ("z", 2), ("a", 3), ("m", 4), ("b", 5)] {
        table.insert(name.to_string(), SlotFileConfig { port });
    }
    assert_eq!(table.get("m").unwrap().port, 4);
    assert!(table.get("q").is_none());
    let slots: Vec<(String, u16)> = slots_from_file(table)
        .into_iter()
        .map(|slot| (slot.name, slot.port))
        .collect();
    assert_eq!(
        slots,
        [
            ("a".to_string(), 3),
            ("b".to_string(), 5),
            ("m".to_string(), 4),
            ("z".to_string(), 2)
        ]
    );
    let unsorted: Vec<SlotConfig> = [("b", 1), ("a", 2), ("b", 3)]
        .iter()
        .map(|(name, port)| SlotConfig { name: name.to_string(), port: *port })
        .collect();
    let ports: Vec<u16> = sort_slots(&unsorted).iter().map(|slot| slot.port).collect();
    assert_eq!(ports, [2, 1, 3]);
}

#[test]
fn other_slots_have_no_colour() {
    assert_eq!(slot_label("purple"), "⏹ purple");
    assert_eq!(active_slot_label(None), "none");
    assert_eq!(active_slot_label(Some("green")), "\x1b[32m⏹\x1b[0m green");
}

#[test]
fn env_values_lose_one_pair_of_quotes() {
    for (value, expected) in [
        ("\"a\"", "a"),
        ("'a'", "a"),
        ("\"\"", ""),
        ("\"", "\""),
        ("'a\"", "'a\""),
        ("\"'a'\"", "'a'"),
        ("é", "é"),
        ("", ""),
    ] {
        assert_eq!(unquote_env_value(value), expected);
    }
}

#[test]
fn env_lines_are_told_apart() {
    let pairs = read_env_file("f", "  A = 1 \r\n\nB=x=y\n   # c\nC=\nD='  spaced  '").unwrap();
    let expected = [("A", "1"), ("B", "x=y"), ("C", ""), ("D", "  spaced  ")];
    assert_eq!(pairs.len(), 4);
    for (pair, (key, value)) in pairs.iter().zip(expected) {
        assert_eq!((pair.0.as_str(), pair.1.as_str()), (key, value));
    }
    let failure = read_env_file("/etc/f.env", "A=1\n  oops  \n=2\n").unwrap_err();
    assert_eq!(failure.message, "invalid env line in /etc/f.env: oops");
    let failure = read_env_file("/etc/f.env", "A=1\n = 2\n").unwrap_err();
    assert_eq!(failure.kind(), ErrorKind::InvalidInput);
    assert_eq!(failure.message, "empty env key in /etc/f.env");
}
