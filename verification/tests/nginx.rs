use doubleshot::nginx::candidates::{
    collect_proxy_candidates, collect_upstreams, parse_proxy_pass_target, NginxCandidate,
    NginxScanFile,
};
use doubleshot::nginx::files::{
    choose_include, expand_simple_glob, list_includes, plan_include, wildcard_match, IncludePlan,
};
use doubleshot::nginx::scan::{
    can_scan, is_loopback_host, next_available_port, propose, rank_candidates,
    score_nginx_candidate, scan_nginx_config,
};
use doubleshot::nginx::source::{
    first_directive_name, is_supported_nginx_block, is_supported_nginx_directive, parse_host_port,
    sanitize_nginx_source, scan_include_paths, scan_upstreams, strip_comment,
};
use doubleshot::nginx::syntax::{
    address_to_string, can_parse, location_pattern_to_string, server_name_to_string, NginxAddress,
    NginxItem, NginxName, NginxPattern,
};

#[test]
fn lines_are_taken_apart() {
    assert_eq!(strip_comment("a # b # c"), "a ");
    assert_eq!(strip_comment("a"), "a");
    assert_eq!(first_directive_name("  }}server {"), "server");
    assert_eq!(first_directive_name("   "), "");
    assert!(is_supported_nginx_block("limit_except") && !is_supported_nginx_block("events"));
    assert!(is_supported_nginx_directive("try_files") && !is_supported_nginx_directive("gzip"));
}

#[test]
fn sanitizing_keeps_what_the_search_needs() {
    let source = "events { x; }\nhttp { # c\n  gzip on;\n  map $a $b {\n    x y;\n  }\n  server {\n    listen 80; # no\n  }\n}\n";
    assert_eq!(
        sanitize_nginx_source(source),
        "\nhttp { \n\n\n\n\n  server {\n    listen 80; \n  }\n}\n"
    );
    assert_eq!(sanitize_nginx_source(""), "");
    assert_eq!(sanitize_nginx_source("listen 1"), "listen 1\n");
}

#[test]
fn included_files_are_named() {
    let source = "include a.conf;\n  include \"b c.conf\"; # x\n#include no;\ninclude '/abs/*.conf';\nincluded d;\n";
    assert_eq!(
        scan_include_paths(source, "/etc/nginx"),
        ["/etc/nginx/a.conf", "/etc/nginx/b c.conf", "/abs/*.conf"]
    );
    assert_eq!(
        list_includes("/etc/nginx/nginx.conf", source),
        ["/etc/nginx/a.conf", "/etc/nginx/b c.conf", "/abs/*.conf"]
    );
    assert_eq!(list_includes("nginx.conf", "include a;"), ["a"]);
    assert_eq!(list_includes("", "include a;"), ["/a"]);
    assert!(matches!(plan_include("/a/b.conf"), IncludePlan::File(path) if path == "/a/b.conf"));
    match plan_include("/a/*.conf") {
        IncludePlan::Matching { parent, name_pattern } => {
            assert_eq!((parent.as_str(), name_pattern.as_str()), ("/a", "*.conf"));
        }
        unexpected => panic!("{unexpected:?}"),
    }
    assert!(matches!(plan_include("/a*/.."), IncludePlan::Nothing));
    assert!(matches!(choose_include("*", None, Some("*".to_string())), IncludePlan::Nothing));
}

#[test]
fn hosts_and_ports_are_read() {
    let read = |s: &str| parse_host_port(s).map(|target| (target.host, target.port));
    assert_eq!(read("127.0.0.1:80"), Some(("127.0.0.1".to_string(), 80)));
    assert_eq!(read("[::1]:8080"), Some(("::1".to_string(), 8080)));
    assert_eq!(read(":1"), Some((String::new(), 1)));
    assert_eq!(read("host"), None);
    assert_eq!(read("host:x"), None);
    assert_eq!(read("host:65536"), None);
}

#[test]
fn upstream_groups_are_found() {
    let source = "upstream a {\n  least_conn;\n  server unix:/x;\n  server 10.0.0.1:81 weight=2;\n  server 10.0.0.2:82;\n}\nupstream b{\n  server h:1;\n}\nupstream none {\n}\nupstream oneline { server h:2; }\nserver {\n}\n";
    let found: Vec<(String, String, u16)> = scan_upstreams(source)
        .into_iter()
        .map(|(name, target)| (name, target.host, target.port))
        .collect();
    assert_eq!(
        found,
        [
            ("a".to_string(), "10.0.0.1".to_string(), 81),
            ("b".to_string(), "h".to_string(), 1),
        ]
    );
}

fn file(path: &str, source: &str) -> NginxScanFile {
    NginxScanFile {
        path: path.to_string(),
        source: source.to_string(),
    }
}

#[test]
fn the_last_definition_of_a_group_counts() {
    let files = vec![
        file("/a", "upstream u {\n server x:1;\n}\n"),
        file("/b", "upstream u {\n server y:2;\n}\n"),
    ];
    let groups = collect_upstreams(&files);
    let target = parse_proxy_pass_target("http://u/path", &groups).unwrap();
    assert_eq!((target.host.as_str(), target.port), ("y", 2));
    let target = parse_proxy_pass_target("http://h:7/u", &groups).unwrap();
    assert_eq!((target.host.as_str(), target.port), ("h", 7));
    assert!(parse_proxy_pass_target("http://other", &groups).is_none());
    assert!(parse_proxy_pass_target("https://u", &groups).is_none());
}

#[test]
fn names_addresses_and_patterns_are_written_out() {
    let s = || "v".to_string();
    assert_eq!(server_name_to_string(&NginxName::Exact(s())), "v");
    assert_eq!(server_name_to_string(&NginxName::Suffix(s())), ".v");
    assert_eq!(server_name_to_string(&NginxName::StarSuffix(s())), "*.v");
    assert_eq!(server_name_to_string(&NginxName::StarPrefix(s())), "v.*");
    assert_eq!(server_name_to_string(&NginxName::Regex(s())), "~v");
    assert_eq!(address_to_string(&NginxAddress::Ip(s())), "v");
    assert_eq!(address_to_string(&NginxAddress::StarPort(80)), "*:80");
    assert_eq!(address_to_string(&NginxAddress::Port(443)), "443");
    assert_eq!(address_to_string(&NginxAddress::Unix(s())), "unix:v");
    assert_eq!(location_pattern_to_string(&NginxPattern::Prefix(s())), "v");
    assert_eq!(location_pattern_to_string(&NginxPattern::Exact(s())), "= v");
    assert_eq!(location_pattern_to_string(&NginxPattern::FinalPrefix(s())), "^~ v");
    assert_eq!(location_pattern_to_string(&NginxPattern::Regex(s())), "~ v");
    assert_eq!(location_pattern_to_string(&NginxPattern::RegexInsensitive(s())), "~* v");
    assert_eq!(location_pattern_to_string(&NginxPattern::Named(s())), "@v");
}

#[test]
fn candidates_are_found_in_servers() {
    let pass = |value: &str| NginxItem::ProxyPass(value.to_string());
    let tree = vec![
        NginxItem::Other,
        pass("http://stray:1"),
        NginxItem::Http(vec![
            NginxItem::Http(vec![NginxItem::Server(vec![
                NginxItem::Location(NginxPattern::Prefix("/".to_string()), vec![pass("http://a:1"), pass("x")]),
                NginxItem::ServerName(vec![NginxName::Exact("late".to_string())]),
                NginxItem::Listen(NginxAddress::Port(443)),
                pass("http://stray:2"),
            ])]),
            NginxItem::Location(NginxPattern::Prefix("/no".to_string()), vec![pass("http://stray:3")]),
        ]),
        NginxItem::Server(vec![NginxItem::Location(
            NginxPattern::Exact("/b".to_string()),
            vec![pass("http://b:2/path")],
        )]),
    ];
    let mut found = Vec::new();
    collect_proxy_candidates(&tree, "/f", &vec![], &mut found);
    assert_eq!(found.len(), 2);
    assert_eq!(found[0].file, "/f");
    assert_eq!(found[0].server_names, ["late"]);
    assert_eq!(found[0].listens, ["443"]);
    assert_eq!(found[0].location, "/");
    assert_eq!((found[0].target_host.as_str(), found[0].target_port, found[0].score), ("a", 1, 0));
    assert_eq!(found[1].location, "= /b");
    assert_eq!(found[1].proxy_pass, "http://b:2/path");
    assert!(found[1].server_names.is_empty());
}

fn candidate(location: &str, host: &str, listens: &[&str], names: &[&str]) -> NginxCandidate {
    NginxCandidate {
        file: "/f".to_string(),
        server_names: names.iter().map(|s| s.to_string()).collect(),
        listens: listens.iter().map(|s| s.to_string()).collect(),
        location: location.to_string(),
        proxy_pass: format!("http://{host}:80"),
        target_host: host.to_string(),
        target_port: 80,
        score: 0,
    }
}

#[test]
fn scores_add_up() {
    let best = candidate("/", "localhost", &["80", "[::]:8443"], &["n"]);
    assert_eq!(score_nginx_candidate(&best, Some("n")), 185);
    assert_eq!(score_nginx_candidate(&best, None), 85);
    assert_eq!(score_nginx_candidate(&best, Some("m")), 85);
    assert_eq!(score_nginx_candidate(&candidate("/x", "h", &[], &[]), Some("m")), 0);
    assert!(is_loopback_host("::1") && is_loopback_host("127.0.0.1") && !is_loopback_host("127.0.0.2"));
}

#[test]
fn the_hint_outranks_everything_else() {
    let list = vec![
        candidate("/", "localhost", &["443"], &["a"]),
        candidate("/x", "far", &["80"], &["wanted"]),
        candidate("/", "localhost", &["443"], &["b"]),
    ];
    let ranked = rank_candidates(list, Some("wanted"));
    let names: Vec<&str> = ranked.iter().map(|c| c.server_names[0].as_str()).collect();
    assert_eq!(names, ["wanted", "a", "b"]);
    assert_eq!(ranked.iter().map(|c| c.score).collect::<Vec<_>>(), [100, 85, 85]);
    let proposal = propose("/root", ranked, None).unwrap();
    assert_eq!(
        proposal.notes[0],
        "selected /f server_name=a location=/ proxy_pass=http://localhost:80"
    );
}

#[test]
fn neighbouring_ports_are_free() {
    assert_eq!(next_available_port(0), 1);
    assert_eq!(next_available_port(65533), 65534);
    assert_eq!(next_available_port(65534), 65533);
    assert_eq!(next_available_port(65535), 65534);
    for port in 0..=u16::MAX {
        let first = next_available_port(port);
        let second = next_available_port(first);
        assert!(first != port && second != first);
        assert_eq!(second == port, port == 65533 || port == 65534);
    }
}

#[test]
fn patterns_match_names() {
    for (pattern, value, expected) in [
        ("a.conf", "a.conf", true),
        ("a.conf", "b.conf", false),
        ("*", "", true),
        ("*", "anything", true),
        ("a*", "abc", true),
        ("a*", "ba", false),
        ("a*b*c", "a-b-c", true),
        ("a*b*c", "a-c-b", false),
        ("*b*", "abc", true),
        ("**", "x", true),
        ("*.conf", "a.conf.conf", false),
        ("", "", true),
        ("a*a", "a", false),
    ] {
        assert_eq!(wildcard_match(pattern, value), expected, "{pattern} {value}");
    }
    let names: Vec<String> = ["b.conf", "x", "a.conf"].iter().map(|s| s.to_string()).collect();
    assert_eq!(expand_simple_glob("/d", "*.conf", &names), ["/d/a.conf", "/d/b.conf"]);
}

#[test]
fn texts_that_the_parser_answers_are_told() {
    for text in [
        "",
        "http { server { listen 80; } }",
        "proxy_pass http://${host}:80;\nset $a \"b c\";",
        "if ($a = b) { return 200; }",
        "if ( -f $a ) { }",
        "if (!-f \"$a\") { }",
        "if (!-f\"$a\") { }",
        "if (\"$a\" = b) { }",
        "if ($a = \"\u{fc}\") { }",
        "if (",
        "if ()",
        "if (a) b) { }",
        "listen unix:/x;",
        "server_name \"b\u{fc}cher.example\";",
        "server_name b\u{fc}cher.example;",
        "\u{feff}\nhttp { }",
        "\u{feff}http { }",
        "location ~ \\.php$ { }",
        "location ~ ^/caf\u{e9}\\.php$ { }",
        "return 200 'it is \"here\"';",
        "location / { allow unix:; proxy_pass http://127.0.0.1:8080; }",
        "index listen unix:;",
        "proxy_set_header \"x\" ${y};",
        "set $a ${b\n};",
        "index a\\ b\u{fc};",
        "index 'a' \"b\" c\u{fc};",
        "server_name \"${x}\" if (x);",
        "location ~ \"a${1}\" { }",
        "rewrite \"^${x}\" /y;",
        "if ($a = \"${b}\") { }",
        "if (a ${b}) { }",
        "map $a $b { server_name c; }",
        "access_log a b if=${c} gzip;",
        "access_log a \"${b}\";",
    ] {
        assert!(can_parse(text), "{text}");
    }
    for text in [
        "index x; # comment",
        "root \u{fc}ber;",
        "set $a \"${b}\";",
        "rewrite /x \"${y}\";",
        "access_log a b ${if=\"${}\u{20ac}",
        "server { access_log p f ${if=\"${x}\u{e9}\u{e9}; }",
        "if (-f \"${b}\") { }",
        "map $a $b { server_name \"${x}\"; }",
        "index ab\\\"${x}\u{e9}\u{e9}\u{e9};",
        "set $a ${b",
        "listen unix:;",
        "listen aunix:\u{fc};",
        "if (foo) { }",
        "if ( foo ) { }",
        "if (\"x\") { }",
        "if (a${b}) { }",
        "if (a) 'x { }",
        "if (\"x\"\u{feff}) { }",
        "if ( $\u{fc}) { }",
        "if a(\u{fc}) { }",
    ] {
        assert!(!can_parse(text), "{text}");
    }
}

#[test]
fn a_word_beyond_ascii_loses_its_first_bytes() {
    let source = "server {\n  server_name b\u{fc}cher.example;\n  location /caf\u{e9} {\n    proxy_pass http://h:1;\n  }\n}\n";
    let files = vec![file("/f", source)];
    assert!(can_scan(&files));
    let proposal = scan_nginx_config("/f", &files, None).unwrap();
    assert_eq!(
        proposal.notes[0],
        "selected /f server_name=\u{fc}cher.example location=caf\u{e9} proxy_pass=http://h:1"
    );
}

/// Texts that are put together from pieces, the same ones on every run.
fn put_together(pieces: &[&str], longest: u64, seed: &mut u64) -> String {
    let mut draw = |below: u64| {
        *seed = seed.wrapping_mul(6364136223846793005).wrapping_add(1442695040888963407);
        (*seed >> 33) % below
    };
    let mut text = String::new();
    for _ in 0..1 + draw(longest) {
        text.push_str(pieces[draw(pieces.len() as u64) as usize]);
        if draw(3) == 0 {
            text.push(' ');
        }
    }
    text
}

#[test]
fn every_text_that_can_be_parsed_is_answered() {
    let pieces = [
        "server", "{", "}", ";", " ", "\n", "if", "(", ")", "$a", "${b}", "\"", "'", "unix:", "listen", "x", "=",
        "location", "/", "proxy_pass", "http://h:1", "\\", "\u{fc}", "\u{20ac}", "\u{feff}", "if (", "a", "set", "return", "200", "-f", "try_files", "map", "server_name", "\"${b}\"", "allow",
    ];
    let mut seed: u64 = 12345;
    let mut answered = 0;
    for _ in 0..15000 {
        let files = vec![file("/f", &put_together(&pieces, 14, &mut seed))];
        if can_scan(&files) {
            let _ = scan_nginx_config("/f", &files, None);
            answered += 1;
        }
    }
    assert!(answered > 1000);
}

#[test]
fn every_condition_that_can_be_parsed_is_answered() {
    let pieces = [
        "(", ")", " ", "\n", "$", "a", "=", "\"", "'", "\\", "{", "${b}", "\u{fc}", "\u{20ac}", "\u{feff}", "-f", "~",
    ];
    let mut seed: u64 = 54321;
    let mut answered = 0;
    for round in 0..60000 {
        let open = if round % 2 == 0 { "if (" } else { "if " };
        let source = format!("{open}{}) {{\n}}\n", put_together(&pieces, 9, &mut seed));
        let files = vec![file("/f", &source)];
        if can_scan(&files) {
            let _ = scan_nginx_config("/f", &files, None);
            answered += 1;
        }
    }
    assert!(answered > 1000);
}

#[test]
fn every_word_that_can_be_parsed_is_answered() {
    let pieces = [
        "a", "$", ".", "*", "unix:", "~", "=", "@", "http://", "\u{fc}", "\u{20ac}", "\u{1f600}", "\u{feff}", "\"", "'",
        "\\", "${b}", ":1", "if=", "${", "}", "unix:",
    ];
    let directives = ["server_name", "rewrite", "access_log p f", "access_log", "if (", "map $a $b { server_name", "listen", "proxy_pass", "set", "return 200", "location", "try_files", "error_page 404"];
    let mut seed: u64 = 777;
    let mut answered = 0;
    for round in 0..30000 {
        let directive = directives[round % directives.len()];
        let source = format!("server {{ {directive} {}; }}\n", put_together(&pieces, 7, &mut seed));
        let files = vec![file("/f", &source)];
        if can_scan(&files) {
            let _ = scan_nginx_config("/f", &files, None);
            answered += 1;
        }
    }
    assert!(answered > 1000);
}

#[test]
fn every_cut_word_that_can_be_parsed_is_answered() {
    let pieces = [
        "${", "}", "\"", "'", "if=", "(", ")", "$", "\u{e9}", "\u{20ac}", "\u{1f600}", "a", " ", "unix:", "\\",
        "${if=\"", "${b}", "\u{e9}\u{e9}", "(${",
    ];
    let directives = ["access_log p f", "access_log", "if (", "if", "listen", "set $a", "rewrite a", "return"];
    let mut seed: u64 = 2024;
    let mut answered = 0;
    for round in 0..30000 {
        let directive = directives[round % directives.len()];
        let source = format!("server {{ {directive} {}; }}\n", put_together(&pieces, 5, &mut seed));
        let files = vec![file("/f", &source)];
        if can_scan(&files) {
            let _ = scan_nginx_config("/f", &files, None);
            answered += 1;
        }
    }
    assert!(answered > 1000);
}
