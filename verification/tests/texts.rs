use doubleshot::number::{parse_number, parse_u16, write_number, write_signed, ParseIntError};
use doubleshot::order::sort_names;
use doubleshot::paths;
use doubleshot::template::{render_template, shell_quote, RenderContext};
use doubleshot::text;

#[test]
fn white_space_is_that_of_unicode() {
    for code in 0..=0x10ffff_u32 {
        if let Some(c) = char::from_u32(code) {
            assert_eq!(text::is_whitespace(c), c.is_whitespace(), "{code:x}");
        }
    }
}

const TEXTS: [&str; 14] = [
    "",
    " ",
    "a",
    "  a b  ",
    "\u{a0}é\u{2003}",
    "a:b:c",
    "::",
    "'quoted'",
    "one\r\ntwo\n\nthree\r",
    "\n",
    "x\n",
    "\r\n",
    "[::1]",
    "pid=pid=7;;",
];

#[test]
fn trimming_and_splitting_agree_with_the_standard_library() {
    for s in TEXTS {
        assert_eq!(text::trim(s), s.trim());
        assert_eq!(text::trim_start_char(s, ':'), s.trim_start_matches(':'));
        assert_eq!(text::trim_end_char(s, ';'), s.trim_end_matches(';'));
        assert_eq!(text::trim_char(s, '\''), s.trim_matches('\''));
        assert_eq!(text::trim_prefixes(s, "pid="), s.trim_start_matches("pid="));
        assert_eq!(text::strip_prefix(s, "pid="), s.strip_prefix("pid="));
        assert_eq!(text::split_once(s, ':'), s.split_once(':'));
        assert_eq!(text::rsplit_once(s, ':'), s.rsplit_once(':'));
        assert_eq!(text::split(s, ':'), s.split(':').collect::<Vec<_>>());
        assert_eq!(text::lines(s), s.lines().collect::<Vec<_>>());
        assert_eq!(text::words(s), s.split_whitespace().collect::<Vec<_>>());
        assert_eq!(text::nth_word(s, 1), s.split_whitespace().nth(1).unwrap_or(""));
        assert_eq!(text::replace(s, "::", "-"), s.replace("::", "-"));
        assert_eq!(text::contains(s, "b:"), s.contains("b:"));
        assert_eq!(text::starts_with(s, "a:"), s.starts_with("a:"));
        assert_eq!(text::ends_with(s, ';'), s.ends_with(';'));
        assert_eq!(text::count_char(s, ':'), s.chars().filter(|c| *c == ':').count());
        for t in TEXTS {
            assert_eq!(text::same(s, t), s == t);
            assert_eq!(text::is_before(s, t), s < t);
        }
    }
}

#[test]
fn numbers_agree_with_the_standard_library() {
    for s in ["0", "7", "+5", "65535", "65536", "00012", "99999999999999999999", "", "+", "-1", "1x", "x", "1 "] {
        assert_eq!(parse_u16(s).ok(), s.parse::<u16>().ok(), "{s}");
        if let (Err(ours), Err(theirs)) = (parse_u16(s), s.parse::<u16>()) {
            assert_eq!(ours.message(), theirs.to_string(), "{s}");
        }
        assert_eq!(parse_number(s, u64::MAX).ok(), s.parse::<u64>().ok(), "{s}");
    }
    assert_eq!(parse_u16(""), Err(ParseIntError::Empty));
    assert_eq!(parse_u16("1x"), Err(ParseIntError::InvalidDigit));
    assert_eq!(parse_u16("65536"), Err(ParseIntError::PosOverflow));
    assert_eq!(parse_u16("99999x"), Err(ParseIntError::PosOverflow));
    assert_eq!(parse_u16("1x99999"), Err(ParseIntError::InvalidDigit));
}

#[test]
fn written_numbers_are_read_back() {
    for n in [0, 7, 10, 99, 100, 65535, u64::MAX] {
        assert_eq!(write_number(n), n.to_string());
        assert_eq!(parse_number(&write_number(n), u64::MAX), Ok(n));
    }
    for n in [0, 5, -5, i32::MAX, i32::MIN] {
        assert_eq!(write_signed(n), n.to_string());
    }
}

#[test]
fn names_are_sorted() {
    let names: Vec<String> = ["b", "a", "ab", "", "é", "z", "a"].iter().map(|s| s.to_string()).collect();
    let mut expected = names.clone();
    expected.sort();
    assert_eq!(sort_names(names), expected);
}

#[test]
fn paths_are_joined() {
    assert_eq!(paths::join("/etc/nginx", "conf.d/x"), "/etc/nginx/conf.d/x");
    assert_eq!(paths::join("/etc/nginx/", "x"), "/etc/nginx/x");
    assert_eq!(paths::join("/etc/nginx", "/abs"), "/abs");
    assert_eq!(paths::join("", "x"), "x");
    assert_eq!(paths::join("/etc", ""), "/etc/");
    assert!(paths::is_absolute("/x") && !paths::is_absolute("x"));
}

/// What a shell makes of a word in single quotes and escaped quotes.
fn unquote(word: &str) -> String {
    let mut r = String::new();
    let mut inside = false;
    let mut chars = word.chars();
    while let Some(c) = chars.next() {
        match c {
            '\'' => inside = !inside,
            '\\' if !inside => r.push(chars.next().unwrap()),
            c => r.push(c),
        }
    }
    assert!(!inside);
    r
}

#[test]
fn quoted_words_are_read_back_by_a_shell() {
    for s in ["", "plain", "with space", "it's", "''", "a'b'c", "$HOME \\ `x`"] {
        assert_eq!(unquote(&shell_quote(s)), s);
    }
    assert_eq!(shell_quote("it's"), "'it'\\''s'");
}

#[test]
fn placeholders_are_filled_in() {
    let context = RenderContext {
        artifact: "/r/it's.jar",
        port: 65535,
        slot: "green",
        release: "/r/other.jar",
    };
    assert_eq!(
        render_template("{slot}:{port} {artifact} {release} {artifact} {unknown} {", &context),
        "green:65535 '/r/it'\\''s.jar' '/r/other.jar' '/r/it'\\''s.jar' {unknown} {"
    );
    let nested = RenderContext {
        artifact: "{slot}",
        port: 1,
        slot: "blue",
        release: "x",
    };
    assert_eq!(render_template("{artifact}", &nested), "'{slot}'");
    assert_eq!(render_template("{{slot}}{slot{port}}", &nested), "{blue}{slot1}");
    let odd = RenderContext {
        artifact: "/tmp/{slot}.jar",
        port: 8081,
        slot: "{port}",
        release: "/tmp/{slot}.jar",
    };
    assert_eq!(render_template("{artifact}", &odd), "'/tmp/{slot}.jar'");
    assert_eq!(render_template("{release}{slot}", &odd), "'/tmp/{slot}.jar'{port}");
}
