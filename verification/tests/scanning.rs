use doubleshot::config::{FileConfig, HealthConfig, SwitchConfig};
use doubleshot::failure::{ErrorKind, Failure};
use doubleshot::nginx::candidates::NginxScanFile;
use doubleshot::nginx::files::{
    collect_nginx_files, expand_simple_glob, list_includes, plan_include, IncludePlan,
};
use doubleshot::nginx::scan::{can_scan, scan_nginx_config, try_scan, NginxScanProposal};
use doubleshot::output::init_config_output;
use doubleshot::slots::{BLUE, GREEN};

/// The files that a configuration is made of, on a disk that holds `disk`.
fn collect(root: &str, disk: &[(&str, &str)]) -> Vec<NginxScanFile> {
    let mut walk = collect_nginx_files(root);
    while let Some(path) = walk.next_file() {
        if !walk.enter(path.clone()) {
            continue;
        }
        let source = disk
            .iter()
            .find(|(name, _)| *name == path)
            .map(|(_, contents)| contents.to_string())
            .unwrap();
        let mut found = Vec::new();
        for pattern in list_includes(&path, &source) {
            match plan_include(&pattern) {
                IncludePlan::Nothing => {}
                IncludePlan::File(path) => {
                    if disk.iter().any(|(name, _)| *name == path) {
                        found.push(path);
                    }
                }
                IncludePlan::Matching { parent, name_pattern } => {
                    let names: Vec<String> = disk
                        .iter()
                        .filter_map(|(name, _)| name.strip_prefix(&format!("{parent}/")))
                        .filter(|name| !name.contains('/'))
                        .map(|name| name.to_string())
                        .collect();
                    found.extend(expand_simple_glob(&parent, &name_pattern, &names));
                }
            }
        }
        walk.add(source, &found);
    }
    walk.into_files()
}

fn scan(root: &str, disk: &[(&str, &str)], hint: Option<&str>) -> Result<NginxScanProposal, Failure> {
    let files = collect(root, disk);
    assert!(can_scan(&files));
    scan_nginx_config(root, &files, hint)
}

fn scan_nginx_fixture(
    name: &str,
    files: &[(&str, &str)],
    server_name_hint: Option<&str>,
) -> NginxScanProposal {
    let dir = format!("/tmp/{name}");
    let paths: Vec<(String, &str)> = files
        .iter()
        .map(|(path, contents)| (format!("{dir}/{path}"), *contents))
        .collect();
    let disk: Vec<(&str, &str)> = paths.iter().map(|(path, contents)| (path.as_str(), *contents)).collect();
    scan(&format!("{dir}/nginx.conf"), &disk, server_name_hint).unwrap()
}

fn port(config: &FileConfig, slot: &str) -> u16 {
    config.slots.as_ref().unwrap().get(slot).unwrap().port
}

fn assert_generated_config(
    proposal: &NginxScanProposal,
    blue_port: u16,
    green_port: u16,
    host: &str,
) {
    assert_eq!(port(&proposal.config, BLUE), blue_port);
    assert_eq!(port(&proposal.config, GREEN), green_port);

    let launch = proposal.config.launch.as_ref().unwrap();
    assert_eq!(
        launch.command,
        "/usr/bin/java -Dserver.port={port} -jar {artifact}"
    );

    match proposal.config.health.as_ref().unwrap() {
        HealthConfig::Tcp { host: actual, .. } => assert_eq!(actual, host),
        other => panic!("expected tcp health config, got {other:?}"),
    }

    match proposal.config.switch.as_ref().unwrap() {
        SwitchConfig::NginxProxyPassInclude { host: actual, .. } => assert_eq!(actual, host),
    }
}

#[test]
fn scans_nginx_direct_proxy_and_avoids_active_port() {
    let proposal = scan_nginx_fixture(
        "direct-proxy",
        &[(
            "nginx.conf",
            r#"
http {
    server {
        listen 443 ssl;
        server_name api.example.com;
        location / {
            limit_req zone=api_limit burst=30 nodelay;
            proxy_pass http://127.0.0.1:8080;
        }
    }
}
"#,
        )],
        None,
    );

    assert_eq!(port(&proposal.config, BLUE), 8081);
    assert_eq!(port(&proposal.config, GREEN), 8082);
    assert!(proposal.notes[0].contains("api.example.com"));
}

#[test]
fn scans_nginx_includes_and_named_upstream() {
    let proposal = scan_nginx_fixture(
        "named-upstream",
        &[
            (
                "nginx.conf",
                r#"
http {
    include conf.d/*.conf;
}
"#,
            ),
            (
                "conf.d/app.conf",
                r#"
upstream app_backend {
    server 127.0.0.1:9000;
}

server {
    server_name app.example.com;
    location / {
        proxy_pass http://app_backend;
    }
}
"#,
            ),
        ],
        Some("app.example.com"),
    );

    assert_eq!(port(&proposal.config, BLUE), 9001);
    assert_eq!(port(&proposal.config, GREEN), 9002);
    assert!(proposal.notes[0].contains("app_backend"));
}

#[test]
fn ranks_server_name_hint_first() {
    let proposal = scan_nginx_fixture(
        "ranking",
        &[(
            "nginx.conf",
            r#"
http {
    server {
        server_name first.example.com;
        location / {
            proxy_pass http://127.0.0.1:8080;
        }
    }
    server {
        server_name wanted.example.com;
        location /api {
            proxy_pass http://127.0.0.1:7000;
        }
    }
}
"#,
        )],
        Some("wanted.example.com"),
    );

    assert_eq!(port(&proposal.config, BLUE), 7001);
    assert!(proposal.notes[0].contains("wanted.example.com"));
}

#[test]
fn nginx_scan_generates_config_for_plain_http_server() {
    let proposal = scan_nginx_fixture(
        "plain-http",
        &[(
            "nginx.conf",
            r#"
http {
    server {
        listen 80;
        server_name app.example.com;
        location / {
            proxy_pass http://127.0.0.1:3000;
        }
    }
}
"#,
        )],
        None,
    );

    assert_generated_config(&proposal, 3001, 3002, "127.0.0.1");
    assert!(proposal.notes[0].contains("app.example.com"));
}

#[test]
fn nginx_scan_generates_config_when_proxy_pass_has_uri_path() {
    let proposal = scan_nginx_fixture(
        "proxy-pass-path",
        &[(
            "nginx.conf",
            r#"
http {
    server {
        server_name app.example.com;
        location /api/ {
            proxy_pass http://127.0.0.1:4100/internal/;
        }
    }
}
"#,
        )],
        None,
    );

    assert_generated_config(&proposal, 4101, 4102, "127.0.0.1");
    assert!(proposal.notes[0].contains("proxy_pass=http://127.0.0.1:4100/internal/"));
}

#[test]
fn nginx_scan_generates_config_for_localhost_backend() {
    let proposal = scan_nginx_fixture(
        "localhost-backend",
        &[(
            "nginx.conf",
            r#"
http {
    server {
        server_name local.example.com;
        location / {
            proxy_pass http://localhost:5000;
        }
    }
}
"#,
        )],
        None,
    );

    assert_generated_config(&proposal, 5001, 5002, "localhost");
}

#[test]
fn nginx_scan_generates_config_for_private_network_backend() {
    let proposal = scan_nginx_fixture(
        "private-network-backend",
        &[(
            "nginx.conf",
            r#"
http {
    server {
        server_name internal.example.com;
        location / {
            proxy_pass http://10.20.30.40:7000;
        }
    }
}
"#,
        )],
        None,
    );

    assert_generated_config(&proposal, 7001, 7002, "10.20.30.40");
}

#[test]
fn nginx_scan_prefers_https_listener_when_no_hint_is_given() {
    let proposal = scan_nginx_fixture(
        "https-listener-rank",
        &[(
            "nginx.conf",
            r#"
http {
    server {
        listen 80;
        server_name web.example.com;
        location / {
            proxy_pass http://127.0.0.1:8100;
        }
    }
    server {
        listen 443 ssl;
        server_name secure.example.com;
        location / {
            proxy_pass http://127.0.0.1:8200;
        }
    }
}
"#,
        )],
        None,
    );

    assert_generated_config(&proposal, 8201, 8202, "127.0.0.1");
    assert!(proposal.notes[0].contains("secure.example.com"));
}

#[test]
fn nginx_scan_prefers_root_location_over_nested_location() {
    let proposal = scan_nginx_fixture(
        "root-location-rank",
        &[(
            "nginx.conf",
            r#"
http {
    server {
        server_name app.example.com;
        location /api {
            proxy_pass http://127.0.0.1:9100;
        }
        location / {
            proxy_pass http://127.0.0.1:9200;
        }
    }
}
"#,
        )],
        None,
    );

    assert_generated_config(&proposal, 9201, 9202, "127.0.0.1");
    assert!(proposal.notes[0].contains("location=/ "));
}

#[test]
fn nginx_scan_uses_server_name_hint_over_default_ranking() {
    let proposal = scan_nginx_fixture(
        "server-name-hint-over-rank",
        &[(
            "nginx.conf",
            r#"
http {
    server {
        listen 443 ssl;
        server_name default.example.com;
        location / {
            proxy_pass http://127.0.0.1:9300;
        }
    }
    server {
        listen 80;
        server_name hinted.example.com;
        location /api {
            proxy_pass http://127.0.0.1:9400;
        }
    }
}
"#,
        )],
        Some("hinted.example.com"),
    );

    assert_generated_config(&proposal, 9401, 9402, "127.0.0.1");
    assert!(proposal.notes[0].contains("hinted.example.com"));
}

#[test]
fn nginx_scan_generates_config_from_quoted_include() {
    let proposal = scan_nginx_fixture(
        "quoted-include",
        &[
            (
                "nginx.conf",
                r#"
http {
    include "conf.d/app.conf";
}
"#,
            ),
            (
                "conf.d/app.conf",
                r#"
server {
    server_name include.example.com;
    location / {
        proxy_pass http://127.0.0.1:9500;
    }
}
"#,
            ),
        ],
        None,
    );

    assert_generated_config(&proposal, 9501, 9502, "127.0.0.1");
    assert!(proposal.notes[0].contains("conf.d/app.conf"));
}

#[test]
fn nginx_scan_generates_config_from_upstream_with_path_suffix() {
    let proposal = scan_nginx_fixture(
        "upstream-path-suffix",
        &[(
            "nginx.conf",
            r#"
http {
    upstream java_app {
        server 127.0.0.1:9600;
    }

    server {
        server_name upstream.example.com;
        location / {
            proxy_pass http://java_app/service/;
        }
    }
}
"#,
        )],
        None,
    );

    assert_generated_config(&proposal, 9601, 9602, "127.0.0.1");
    assert!(proposal.notes[0].contains("proxy_pass=http://java_app/service/"));
}

#[test]
fn nginx_scan_generates_config_when_unknown_directives_are_present() {
    let proposal = scan_nginx_fixture(
        "unknown-directives",
        &[(
            "nginx.conf",
            r#"
http {
    map $http_upgrade $connection_upgrade {
        default upgrade;
        '' close;
    }

    server {
        listen 443 ssl http2;
        server_name noisy.example.com;
        gzip on;

        location / {
            proxy_http_version 1.1;
            proxy_set_header Host $host;
            proxy_pass http://127.0.0.1:9700;
        }
    }
}
"#,
        )],
        None,
    );

    assert_generated_config(&proposal, 9701, 9702, "127.0.0.1");
    assert!(proposal.notes[0].contains("noisy.example.com"));
}

/// The values of a configuration file, as a table.
fn table(config: &FileConfig) -> toml::Table {
    let mut top = toml::Table::new();
    if let Some(home) = &config.home {
        top.insert("home".to_string(), toml::Value::String(home.clone()));
    }
    let mut slots = toml::Table::new();
    for name in [BLUE, GREEN] {
        let mut slot = toml::Table::new();
        slot.insert("port".to_string(), toml::Value::Integer(port(config, name) as i64));
        slots.insert(name.to_string(), toml::Value::Table(slot));
    }
    top.insert("slots".to_string(), toml::Value::Table(slots));
    let mut launch = toml::Table::new();
    launch.insert(
        "command".to_string(),
        toml::Value::String(config.launch.as_ref().unwrap().command.clone()),
    );
    top.insert("launch".to_string(), toml::Value::Table(launch));
    let mut health = toml::Table::new();
    if let HealthConfig::Tcp { host, .. } = config.health.as_ref().unwrap() {
        health.insert("kind".to_string(), toml::Value::String("tcp".to_string()));
        health.insert("host".to_string(), toml::Value::String(host.clone()));
    }
    top.insert("health".to_string(), toml::Value::Table(health));
    let mut switch = toml::Table::new();
    let SwitchConfig::NginxProxyPassInclude { path, .. } = config.switch.as_ref().unwrap();
    switch.insert("path".to_string(), toml::Value::String(path.clone()));
    top.insert("switch".to_string(), toml::Value::Table(switch));
    top
}

/// What the command prints for a configuration of Nginx.
fn output(root: &str, disk: &[(&str, &str)], hint: Option<&str>) -> String {
    let proposal = scan(root, disk, hint).unwrap();
    let sample = toml::to_string_pretty(&table(&proposal.config)).unwrap();
    init_config_output(&proposal.notes, true, &sample)
}

fn nginx_fixture(proxy_pass: &str) -> String {
    format!(
        r#"
http {{
    server {{
        listen 443 ssl;
        server_name api.example.com;
        location / {{
            limit_req zone=api_limit burst=30 nodelay;
            proxy_pass {proxy_pass};
            proxy_http_version 1.1;
            proxy_set_header Host $host;
        }}
    }}
}}
"#
    )
}

fn strip_note_comments(output: &str) -> String {
    output
        .lines()
        .filter(|line| !line.starts_with("# "))
        .collect::<Vec<_>>()
        .join("\n")
}

#[test]
fn nginx_scan_detects_direct_proxy_pass() {
    let port: u16 = 5678;
    let source = nginx_fixture(&format!("http://127.0.0.1:{port}"));

    let text = output("/etc/nginx.conf", &[("/etc/nginx.conf", &source)], None);

    assert!(text.contains(&format!("detected existing backend 127.0.0.1:{port}")));
    assert!(text.contains(&format!("port = {}", port + 1)));
}

#[test]
fn nginx_scan_detects_named_upstream() {
    let port: u16 = 5678;
    let source = format!(
        r#"
http {{
    upstream app_backend {{
        server 127.0.0.1:{port};
    }}
    server {{
        server_name app.example.com;
        location / {{
            proxy_pass http://app_backend;
        }}
    }}
}}
"#
    );

    let text = output("/etc/nginx.conf", &[("/etc/nginx.conf", &source)], Some("app.example.com"));

    assert!(text.contains("proxy_pass=http://app_backend"));
    assert!(text.contains(&format!("port = {}", port + 1)));
}

#[test]
fn nginx_scan_follows_conf_d_include() {
    let port: u16 = 5678;
    let app = format!(
        r#"
server {{
    server_name include.example.com;
    location / {{
        proxy_pass http://127.0.0.1:{port};
    }}
}}
"#
    );

    let text = output(
        "/etc/nginx.conf",
        &[
            ("/etc/nginx.conf", "http {\n    include conf.d/*.conf;\n}\n"),
            ("/etc/conf.d/app.conf", &app),
        ],
        None,
    );

    assert!(text.contains("conf.d/app.conf"));
}

#[test]
fn nginx_scan_server_name_hint_ranks_target() {
    let first_port: u16 = 5678;
    let wanted_port: u16 = 6789;
    let source = format!(
        r#"
http {{
    server {{
        server_name first.example.com;
        location / {{
            proxy_pass http://127.0.0.1:{first_port};
        }}
    }}
    server {{
        server_name wanted.example.com;
        location /api {{
            proxy_pass http://127.0.0.1:{wanted_port};
        }}
    }}
}}
"#
    );

    let text = output("/etc/nginx.conf", &[("/etc/nginx.conf", &source)], Some("wanted.example.com"));

    assert!(text.contains("wanted.example.com"));
    assert!(text.contains(&format!("port = {}", wanted_port + 1)));
}

#[test]
fn init_config_from_nginx_output_is_valid_toml() {
    let source = nginx_fixture("http://127.0.0.1:5678");

    let text = output("/etc/nginx.conf", &[("/etc/nginx.conf", &source)], None);

    let parsed: toml::Table = toml::from_str(&strip_note_comments(&text)).unwrap();
    assert!(parsed.get("slots").is_some());
    assert!(parsed.get("launch").is_some());
    assert!(parsed.get("health").is_some());
    assert!(parsed.get("switch").is_some());
}

#[test]
fn a_configuration_without_a_backend_is_reported() {
    let source = "http {\n    server {\n        listen 80;\n    }\n}\n";
    let failure = scan("/etc/nginx.conf", &[("/etc/nginx.conf", source)], None).unwrap_err();
    assert_eq!(failure.kind(), ErrorKind::NotFound);
    assert_eq!(failure.message, "no proxy_pass candidates found from /etc/nginx.conf");
}

#[test]
fn a_file_that_is_not_understood_is_reported() {
    let source = "http {\n    server {\n        listen here;\n    }\n}\n";
    let failure = scan("/etc/nginx.conf", &[("/etc/nginx.conf", source)], None).unwrap_err();
    assert_eq!(failure.kind(), ErrorKind::InvalidData);
    assert!(failure.message.starts_with("failed to parse /etc/nginx.conf: parse error: "));
}

#[test]
fn a_file_is_read_once() {
    let files = collect(
        "/etc/a.conf",
        &[
            ("/etc/a.conf", "include b.conf;\ninclude c.conf;\n"),
            ("/etc/b.conf", "include a.conf;\ninclude d.conf;\n"),
            ("/etc/c.conf", "include d.conf;\n"),
            ("/etc/d.conf", ""),
        ],
    );
    let paths: Vec<&str> = files.iter().map(|file| file.path.as_str()).collect();
    assert_eq!(paths, ["/etc/a.conf", "/etc/b.conf", "/etc/d.conf", "/etc/c.conf"]);
}

#[test]
fn notes_name_the_ranking() {
    let mut source = String::from("http {\n    server {\n        server_name a.example.com b.example.com;\n        listen 443;\n");
    for n in 1..=6 {
        source.push_str(&format!(
            "        location /{n} {{\n            proxy_pass http://10.0.0.1:900{n};\n        }}\n"
        ));
    }
    source.push_str("    }\n    server {\n        location / {\n            proxy_pass http://[::1]:7000/x;\n        }\n    }\n}\n");
    let proposal = scan("/n.conf", &[("/n.conf", &source)], None).unwrap();
    assert_eq!(
        proposal.notes,
        [
            "selected /n.conf server_name=<none> location=/ proxy_pass=http://[::1]:7000/x",
            "replace the selected proxy_pass with: include /etc/nginx/doubleshot/proxy-pass.inc;",
            "detected existing backend ::1:7000; generated first deploy slot avoids that occupied port",
            "ranked nginx candidates:",
            "score=75 file=/n.conf server_name=<none> location=/ proxy_pass=http://[::1]:7000/x",
            "score=10 file=/n.conf server_name=a.example.com,b.example.com location=/1 proxy_pass=http://10.0.0.1:9001",
            "score=10 file=/n.conf server_name=a.example.com,b.example.com location=/2 proxy_pass=http://10.0.0.1:9002",
            "score=10 file=/n.conf server_name=a.example.com,b.example.com location=/3 proxy_pass=http://10.0.0.1:9003",
            "score=10 file=/n.conf server_name=a.example.com,b.example.com location=/4 proxy_pass=http://10.0.0.1:9004",
        ]
    );
}

#[test]
fn the_parser_gives_all_that_the_search_looks_at() {
    let source = r#"
http {
    server {
        listen 127.0.0.1:8443;
        listen *:80;
        listen unix:/run/app.sock;
        server_name exact.example.com .suffix.example.com *.star.example.com www.* ~^re;
        location = /exact {
            proxy_pass http://127.0.0.1:1001;
        }
        location ^~ /final {
            proxy_pass http://127.0.0.1:1002;
        }
        location ~ \.php$ {
            proxy_pass http://127.0.0.1:1003;
        }
        location ~* \.jpg$ {
            proxy_pass http://127.0.0.1:1004;
        }
        location /var {
            proxy_pass http://$backend;
        }
        location /not-http {
            proxy_pass https://127.0.0.1:1005;
        }
    }
}
"#;
    let proposal = scan("/n.conf", &[("/n.conf", source)], None).unwrap();
    let names = "exact.example.com,.suffix.example.com,*.star.example.com,www.*,~^re";
    assert_eq!(
        &proposal.notes[4..],
        [
            format!("score=35 file=/n.conf server_name={names} location== /exact proxy_pass=http://127.0.0.1:1001"),
            format!("score=35 file=/n.conf server_name={names} location=^~ /final proxy_pass=http://127.0.0.1:1002"),
            format!("score=35 file=/n.conf server_name={names} location=~ \\.php$ proxy_pass=http://127.0.0.1:1003"),
            format!("score=35 file=/n.conf server_name={names} location=~* \\.jpg$ proxy_pass=http://127.0.0.1:1004"),
        ]
    );
}

#[test]
fn a_location_on_one_line_is_found() {
    let source = "server {\nlocation / { allow unix:; proxy_pass http://127.0.0.1:8080; }\n}\n";
    let proposal = scan("/nginx.conf", &[("/nginx.conf", source)], None).unwrap();
    assert_eq!(port(&proposal.config, BLUE), 8081);
}

#[test]
fn the_first_file_that_is_not_understood_is_reported() {
    let file = |path: &str, source: &str| NginxScanFile {
        path: path.to_string(),
        source: source.to_string(),
    };
    let good = "server {\nlocation / {\nproxy_pass http://127.0.0.1:1;\n}\n}\n";
    let broken = file("/b", "location {\n}\n");
    let refused = file("/c", "listen unix:;\n");
    assert!(try_scan("/a", &vec![file("/a", good)], None).unwrap().is_ok());
    let failure = try_scan("/a", &vec![file("/a", good), broken, refused], None).unwrap().unwrap_err();
    assert_eq!(failure.kind(), ErrorKind::InvalidData);
    assert!(failure.message.starts_with("failed to parse /b: "));
    let files = vec![file("/a", good), file("/c", "listen unix:;\n"), file("/b", "location {\n}\n")];
    assert!(try_scan("/a", &files, None).is_none());
    assert!(!can_scan(&files));
}
