//! Configuration text, line by line: comments, the directives that matter,
//! included files, and the servers of upstream groups.
use vstd::prelude::*;

use crate::number;
use crate::paths;
use crate::text;

verus! {

// ---------------------------------------------------------------------------
// One line
// ---------------------------------------------------------------------------

/// A line without its comment.
pub open spec fn bare(line: Seq<char>) -> Seq<char> {
    text::head(line, '#')
}

/// The name of the directive that a line begins with: its first word, without
/// the closing braces in front.
pub open spec fn directive_name(line: Seq<char>) -> Seq<char> {
    text::without_start(text::word(line, 0), '}')
}

/// The names of the blocks that are looked into.
pub open spec fn supported_block(name: Seq<char>) -> bool {
    ||| name == "http"@
    ||| name == "server"@
    ||| name == "location"@
    ||| name == "if"@
    ||| name == "limit_except"@
}

/// The names of the directives that are kept.
pub open spec fn supported_directive(name: Seq<char>) -> bool {
    ||| name == "include"@
    ||| name == "listen"@
    ||| name == "server_name"@
    ||| name == "proxy_pass"@
    ||| name == "proxy_set_header"@
    ||| name == "proxy_http_version"@
    ||| name == "proxy_connect_timeout"@
    ||| name == "proxy_read_timeout"@
    ||| name == "proxy_send_timeout"@
    ||| name == "return"@
    ||| name == "rewrite"@
    ||| name == "set"@
    ||| name == "root"@
    ||| name == "alias"@
    ||| name == "error_page"@
    ||| name == "try_files"@
    ||| name == "ssl_certificate"@
    ||| name == "ssl_certificate_key"@
    ||| name == "index"@
}

/// By how much a text deepens the nesting of braces.
pub open spec fn nesting(s: Seq<char>) -> int {
    text::count(s, '{') - text::count(s, '}')
}

/// A line without its comment.
pub fn strip_comment(line: &str) -> (r: String)
    ensures
        r@ == bare(line@),
{
    text::head_of(line, '#').to_owned()
}

/// The name of the directive that a line begins with.
pub fn first_directive_name(line: &str) -> (r: String)
    ensures
        r@ == directive_name(line@),
{
    let first = text::nth_word(line, 0);
    text::trim_start_char(first.as_str(), '}').to_owned()
}

/// Whether blocks of this name are looked into.
pub fn is_supported_nginx_block(name: &str) -> (r: bool)
    ensures
        r == supported_block(name@),
{
    text::same(name, "http") || text::same(name, "server") || text::same(name, "location")
        || text::same(name, "if") || text::same(name, "limit_except")
}

/// Whether directives of this name are kept.
pub fn is_supported_nginx_directive(name: &str) -> (r: bool)
    ensures
        r == supported_directive(name@),
{
    text::same(name, "include") || text::same(name, "listen") || text::same(name, "server_name")
        || text::same(name, "proxy_pass") || text::same(name, "proxy_set_header") || text::same(
        name,
        "proxy_http_version",
    ) || text::same(name, "proxy_connect_timeout") || text::same(name, "proxy_read_timeout")
        || text::same(name, "proxy_send_timeout") || text::same(name, "return") || text::same(
        name,
        "rewrite",
    ) || text::same(name, "set") || text::same(name, "root") || text::same(name, "alias")
        || text::same(name, "error_page") || text::same(name, "try_files") || text::same(
        name,
        "ssl_certificate",
    ) || text::same(name, "ssl_certificate_key") || text::same(name, "index")
}

// ---------------------------------------------------------------------------
// Sanitizing
// ---------------------------------------------------------------------------

/// What is kept of a line, and how deep inside a skipped block the next line
/// stands. A line is dropped where it is empty, where it stands in a skipped
/// block, where it opens a block that is not looked into, and where it is a
/// directive that is not kept.
pub open spec fn sanitized_line(line: Seq<char>, depth: int) -> (Seq<char>, int) {
    let t = text::trimmed(bare(line));
    if t.len() == 0 {
        (Seq::empty(), depth)
    } else if depth > 0 {
        (Seq::empty(), depth + nesting(t))
    } else if t.contains('{') && !supported_block(directive_name(t)) {
        (Seq::empty(), depth + nesting(t))
    } else if text::ends(t, ';') && !supported_directive(directive_name(t)) {
        (Seq::empty(), depth)
    } else {
        (bare(line), depth)
    }
}

/// What is kept of the lines, each with a line feed behind it.
pub open spec fn sanitized_lines(lines: Seq<Seq<char>>, depth: int) -> Seq<char>
    decreases lines.len(),
{
    if lines.len() == 0 {
        Seq::empty()
    } else {
        let (kept, next) = sanitized_line(lines[0], depth);
        kept.push('\n') + sanitized_lines(lines.drop_first(), next)
    }
}

/// A configuration text with only what the parser is to see: no comments, and
/// empty lines in the place of what is of no use here.
pub open spec fn sanitized(source: Seq<char>) -> Seq<char> {
    sanitized_lines(text::line_seq(source), 0)
}

/// The number of characters in all lines together.
pub open spec fn total_len(lines: Seq<Seq<char>>) -> nat
    decreases lines.len(),
{
    if lines.len() == 0 {
        0
    } else {
        lines[0].len() + total_len(lines.drop_first())
    }
}

pub proof fn lemma_total_len(s: Seq<char>)
    ensures
        total_len(text::line_seq(s)) <= s.len(),
    decreases s.len(),
{
    text::lemma_position_bounds(s, '\n');
    let all = text::line_seq(s);
    if s.len() == 0 {
    } else if text::position(s, '\n') < s.len() {
        let rest = text::tail(s, '\n');
        lemma_total_len(rest);
        assert(all[0] == text::without_cr(text::head(s, '\n')));
        assert(all.drop_first() =~= text::line_seq(rest));
    } else {
        assert(all[0] == s);
        assert(all.drop_first().len() == 0);
        assert(total_len(all.drop_first()) == 0);
    }
}

proof fn lemma_trimmed_start_len(s: Seq<char>)
    ensures
        text::trimmed_start(s).len() <= s.len(),
    decreases s.len(),
{
    if s.len() > 0 && text::white(s[0]) {
        lemma_trimmed_start_len(s.drop_first());
    }
}

proof fn lemma_trimmed_end_len(s: Seq<char>)
    ensures
        text::trimmed_end(s).len() <= s.len(),
    decreases s.len(),
{
    if s.len() > 0 && text::white(s.last()) {
        lemma_trimmed_end_len(s.drop_last());
    }
}

pub proof fn lemma_nesting_bound(line: Seq<char>)
    ensures
        text::trimmed(bare(line)).len() <= line.len(),
        -line.len() <= nesting(text::trimmed(bare(line))) <= line.len(),
{
    let t = text::trimmed(bare(line));
    text::lemma_position_bounds(line, '#');
    lemma_trimmed_start_len(bare(line));
    lemma_trimmed_end_len(text::trimmed_start(bare(line)));
    text::lemma_count_bound(t, '{');
    text::lemma_count_bound(t, '}');
}

/// By how much a text deepens the nesting of braces.
fn nesting_of(s: &str) -> (r: i32)
    requires
        s@.len() <= i32::MAX,
    ensures
        r == nesting(s@),
{
    let opened: usize = text::count_char(s, '{');
    let closed: usize = text::count_char(s, '}');
    opened as i32 - closed as i32
}

/// A configuration text with only what the parser is to see.
pub fn sanitize_nginx_source(source: &str) -> (r: String)
    requires
        source@.len() <= i32::MAX,
    ensures
        r@ == sanitized(source@),
{
    let lines = text::lines(source);
    let ghost all = lines.deep_view();
    let mut r = String::new();
    let mut depth: i32 = 0;
    let mut i: usize = 0;
    proof {
        lemma_total_len(source@);
        assert(all.skip(0) =~= all);
        assert(r@ + sanitized_lines(all, 0) =~= sanitized(source@));
    }
    while i < lines.len()
        invariant
            i <= lines.len(),
            all == lines.deep_view(),
            sanitized(source@) == r@ + sanitized_lines(all.skip(i as int), depth as int),
            -i32::MAX <= depth - total_len(all.skip(i as int)),
            depth + total_len(all.skip(i as int)) <= i32::MAX,
        decreases lines.len() - i,
    {
        let line = lines[i].as_str();
        let ghost rest = all.skip(i as int);
        let ghost done = r@;
        proof {
            assert(rest[0] == all[i as int]);
            assert(all[i as int] == line@);
            assert(rest.drop_first() =~= all.skip(i + 1));
            lemma_nesting_bound(line@);
        }
        let kept = strip_comment(line);
        let trimmed = text::trim(kept.as_str());
        let name = first_directive_name(trimmed);
        let ghost (out, next) = sanitized_line(line@, depth as int);
        if trimmed.is_empty() {
        } else if depth > 0 {
            depth = depth + nesting_of(trimmed);
        } else if text::contains_char(trimmed, '{') && !is_supported_nginx_block(name.as_str()) {
            depth = depth + nesting_of(trimmed);
        } else if text::ends_with(trimmed, ';') && !is_supported_nginx_directive(name.as_str()) {
        } else {
            r.append(kept.as_str());
        }
        r.push('\n');
        assert(depth == next);
        assert(r@ =~= done + out.push('\n'));
        assert(r@ + sanitized_lines(all.skip(i + 1), depth as int) =~= done + (out.push('\n')
            + sanitized_lines(rest.drop_first(), next)));
        i = i + 1;
    }
    assert(r@ + sanitized_lines(all.skip(i as int), depth as int) =~= r@);
    r
}

proof fn lemma_no_comment_left(lines: Seq<Seq<char>>, depth: int)
    ensures
        !sanitized_lines(lines, depth).contains('#'),
    decreases lines.len(),
{
    if lines.len() > 0 {
        let (kept, next) = sanitized_line(lines[0], depth);
        lemma_no_comment_left(lines.drop_first(), next);
        text::lemma_position_bounds(lines[0], '#');
        let rest = sanitized_lines(lines.drop_first(), next);
        let all = kept.push('\n') + rest;
        assert forall|k: int| 0 <= k < all.len() implies all[k] != '#' by {
            if k > kept.len() {
                assert(all[k] == rest[k - kept.len() - 1]);
            }
        }
    }
}

/// No comment is left in a sanitized text.
pub proof fn sanitized_has_no_comment(source: Seq<char>)
    ensures
        !sanitized(source).contains('#'),
{
    lemma_no_comment_left(text::line_seq(source), 0);
}

proof fn lemma_count_sum(a: Seq<char>, b: Seq<char>, c: char)
    ensures
        text::count(a + b, c) == text::count(a, c) + text::count(b, c),
    decreases b.len(),
{
    if b.len() == 0 {
        assert(a + b =~= a);
    } else {
        lemma_count_sum(a, b.drop_last(), c);
        assert((a + b).drop_last() =~= a + b.drop_last());
    }
}

proof fn lemma_count_none(s: Seq<char>, c: char)
    requires
        forall|k: int| 0 <= k < s.len() ==> s[k] != c,
    ensures
        text::count(s, c) == 0,
    decreases s.len(),
{
    if s.len() > 0 {
        lemma_count_none(s.drop_last(), c);
    }
}

proof fn lemma_lines_have_no_feed(s: Seq<char>)
    ensures
        forall|i: int, k: int|
            0 <= i < text::line_seq(s).len() && 0 <= k < text::line_seq(s)[i].len()
                ==> #[trigger] text::line_seq(s)[i][k] != '\n',
    decreases s.len(),
{
    text::lemma_position_bounds(s, '\n');
    let all = text::line_seq(s);
    if s.len() == 0 {
    } else if text::position(s, '\n') < s.len() {
        let rest = text::tail(s, '\n');
        lemma_lines_have_no_feed(rest);
        assert forall|i: int, k: int| 0 <= i < all.len() && 0 <= k < all[i].len() implies
            #[trigger] all[i][k] != '\n' by {
            if i > 0 {
                assert(all[i] == text::line_seq(rest)[i - 1]);
            } else {
                assert(all[0] == text::without_cr(text::head(s, '\n')));
            }
        }
    }
}

proof fn lemma_line_count(lines: Seq<Seq<char>>, depth: int)
    requires
        forall|i: int, k: int|
            0 <= i < lines.len() && 0 <= k < lines[i].len() ==> #[trigger] lines[i][k] != '\n',
    ensures
        text::count(sanitized_lines(lines, depth), '\n') == lines.len(),
    decreases lines.len(),
{
    if lines.len() > 0 {
        let (kept, next) = sanitized_line(lines[0], depth);
        let rest = lines.drop_first();
        assert forall|i: int, k: int| 0 <= i < rest.len() && 0 <= k < rest[i].len() implies
            #[trigger] rest[i][k] != '\n' by {
            assert(rest[i] == lines[i + 1]);
            assert(lines[i + 1][k] != '\n');
        }
        lemma_line_count(rest, next);
        text::lemma_position_bounds(lines[0], '#');
        assert forall|k: int| 0 <= k < kept.len() implies kept[k] != '\n' by {
            assert(lines[0][k] != '\n');
        }
        lemma_count_none(kept, '\n');
        assert(kept.push('\n').drop_last() =~= kept);
        lemma_count_sum(kept.push('\n'), sanitized_lines(rest, next), '\n');
    }
}

/// A sanitized text has a line for each line of the source, so that a place in
/// the one is found at the same line of the other.
pub proof fn sanitized_keeps_line_numbers(source: Seq<char>)
    ensures
        text::count(sanitized(source), '\n') == text::line_seq(source).len(),
{
    lemma_lines_have_no_feed(source);
    lemma_line_count(text::line_seq(source), 0);
}

// ---------------------------------------------------------------------------
// Included files
// ---------------------------------------------------------------------------

/// The file that an include line names, or `None` for any other line.
pub open spec fn included(line: Seq<char>) -> Option<Seq<char>> {
    let t = text::trimmed(bare(line));
    if text::starts(t, "include "@) {
        let name = text::trimmed(text::without_prefixes(t, "include"@));
        Some(text::without_ends(text::without_ends(text::without_end(name, ';'), '"'), '\''))
    } else {
        None
    }
}

/// The files that the lines include, as paths read from the directory `base`.
pub open spec fn included_paths(lines: Seq<Seq<char>>, base: Seq<char>) -> Seq<Seq<char>>
    decreases lines.len(),
{
    if lines.len() == 0 {
        Seq::empty()
    } else {
        let front = included_paths(lines.drop_last(), base);
        match included(lines.last()) {
            Some(name) => front.push(paths::below(base, name)),
            None => front,
        }
    }
}

/// The files that a configuration text includes, as paths read from the
/// directory `base`. A path may hold `*` in its last part.
pub fn scan_include_paths(source: &str, base: &str) -> (r: Vec<String>)
    ensures
        r.deep_view() == included_paths(text::line_seq(source@), base@),
{
    let lines = text::lines(source);
    let ghost all = lines.deep_view();
    let mut r: Vec<String> = Vec::new();
    let mut i: usize = 0;
    proof {
        reveal_strlit("include");
        assert(all.take(0) =~= Seq::empty());
        assert(r.deep_view() =~= Seq::empty());
    }
    while i < lines.len()
        invariant
            i <= lines.len(),
            all == lines.deep_view(),
            "include"@.len() > 0,
            r.deep_view() == included_paths(all.take(i as int), base@),
        decreases lines.len() - i,
    {
        let line = lines[i].as_str();
        let ghost front = r.deep_view();
        proof {
            assert(all.take(i + 1).drop_last() =~= all.take(i as int));
            assert(all.take(i + 1).last() == line@);
        }
        let kept = strip_comment(line);
        let trimmed = text::trim(kept.as_str());
        if text::starts_with(trimmed, "include ") {
            let name = text::trim(text::trim_prefixes(trimmed, "include"));
            let name = text::trim_char(text::trim_char(text::trim_end_char(name, ';'), '"'), '\'');
            r.push(paths::join(base, name));
            assert(r.deep_view() =~= front.push(paths::below(base@, name@)));
        }
        i = i + 1;
    }
    assert(all.take(lines.len() as int) =~= all);
    r
}

// ---------------------------------------------------------------------------
// Addresses
// ---------------------------------------------------------------------------

/// A host and a port.
#[derive(Debug)]
pub struct ParsedProxyTarget {
    pub host: String,
    pub port: u16,
}

/// What a [`ParsedProxyTarget`] holds.
pub struct TargetView {
    pub host: Seq<char>,
    pub port: u16,
}

impl DeepView for ParsedProxyTarget {
    type V = TargetView;

    open spec fn deep_view(&self) -> TargetView {
        TargetView { host: self.host@, port: self.port }
    }
}

impl Clone for ParsedProxyTarget {
    fn clone(&self) -> (r: ParsedProxyTarget)
        ensures
            r.deep_view() == self.deep_view(),
    {
        ParsedProxyTarget { host: self.host.clone(), port: self.port }
    }
}

/// Whether `c` is a square bracket.
pub open spec fn is_bracket(c: char) -> bool {
    c == '[' || c == ']'
}

/// `s` without the square brackets at its start.
pub open spec fn unbracketed_start(s: Seq<char>) -> Seq<char>
    decreases s.len(),
{
    if s.len() > 0 && is_bracket(s[0]) {
        unbracketed_start(s.drop_first())
    } else {
        s
    }
}

/// `s` without the square brackets at its end.
pub open spec fn unbracketed_end(s: Seq<char>) -> Seq<char>
    decreases s.len(),
{
    if s.len() > 0 && is_bracket(s.last()) {
        unbracketed_end(s.drop_last())
    } else {
        s
    }
}

/// The host and port of an address: the port stands behind the last colon, and
/// the host may stand in square brackets.
pub open spec fn host_port(authority: Seq<char>) -> Option<TargetView> {
    let colon = text::last_position(authority, ':');
    if colon < 0 {
        None
    } else {
        match number::read_number(authority.skip(colon + 1), 0xffff) {
            Ok(port) => Some(
                TargetView {
                    host: unbracketed_end(unbracketed_start(authority.take(colon))),
                    port: port as u16,
                },
            ),
            Err(_) => None,
        }
    }
}

/// `s` without the square brackets at its ends.
fn trim_brackets<'a>(s: &'a str) -> (r: &'a str)
    ensures
        r@ == unbracketed_end(unbracketed_start(s@)),
{
    let v = text::chars_of(s);
    let mut from: usize = 0;
    assert(v@.skip(0) =~= s@);
    while from < v.len() && (v[from] == '[' || v[from] == ']')
        invariant
            from <= v.len(),
            unbracketed_start(s@) == unbracketed_start(v@.skip(from as int)),
        decreases v.len() - from,
    {
        assert(v@.skip(from as int).drop_first() =~= v@.skip(from + 1));
        from = from + 1;
    }
    let mut to: usize = v.len();
    assert(v@.subrange(from as int, to as int) =~= v@.skip(from as int));
    while from < to && (v[to - 1] == '[' || v[to - 1] == ']')
        invariant
            from <= to <= v.len(),
            unbracketed_end(unbracketed_start(s@)) == unbracketed_end(
                v@.subrange(from as int, to as int),
            ),
        decreases to,
    {
        assert(v@.subrange(from as int, to as int).drop_last() =~= v@.subrange(
            from as int,
            to - 1,
        ));
        to = to - 1;
    }
    s.substring_char(from, to)
}

/// The host and port of an address.
pub fn parse_host_port(authority: &str) -> (r: Option<ParsedProxyTarget>)
    ensures
        r.deep_view() == host_port(authority@),
{
    match text::rsplit_once(authority, ':') {
        None => None,
        Some((host, port)) => match number::parse_u16(port) {
            Ok(port) => Some(ParsedProxyTarget { host: trim_brackets(host).to_owned(), port }),
            Err(_) => None,
        },
    }
}

// ---------------------------------------------------------------------------
// Upstream groups
// ---------------------------------------------------------------------------

/// The name in the opening line of an upstream group.
pub open spec fn upstream_name(t: Seq<char>) -> Seq<char> {
    text::without_end(text::word(text::without_prefixes(t, "upstream"@), 0), '{')
}

/// The address in a `server` line of an upstream group.
pub open spec fn upstream_server(t: Seq<char>) -> Option<TargetView> {
    if text::starts(t, "server "@) {
        host_port(
            text::word(
                text::without_end(text::trimmed(text::without_prefixes(t, "server"@)), ';'),
                0,
            ),
        )
    } else {
        None
    }
}

/// Looks in `lines`, which stand `depth` deep in an upstream group, for its
/// first server with a host and a port: that server, and how many lines were
/// passed before it, or before the group ended.
pub open spec fn first_server(lines: Seq<Seq<char>>, depth: int) -> (Option<TargetView>, nat)
    decreases lines.len(),
{
    if lines.len() == 0 || depth <= 0 {
        (None, 0)
    } else {
        let t = text::trimmed(bare(lines[0]));
        match upstream_server(t) {
            Some(target) => (Some(target), 0),
            None => {
                let (found, passed) = first_server(lines.drop_first(), depth + nesting(t));
                (found, passed + 1)
            },
        }
    }
}

pub proof fn lemma_first_server(lines: Seq<Seq<char>>, depth: int)
    ensures
        first_server(lines, depth).1 <= lines.len(),
    decreases lines.len(),
{
    if lines.len() > 0 && depth > 0 {
        let t = text::trimmed(bare(lines[0]));
        lemma_first_server(lines.drop_first(), depth + nesting(t));
    }
}

/// Whether a line opens an upstream group.
pub open spec fn opens_upstream(t: Seq<char>) -> bool {
    text::starts(t, "upstream "@) && t.contains('{')
}

/// The upstream groups that the lines define, in order, each with its first
/// server; a group without one is left out.
pub open spec fn upstream_seq(lines: Seq<Seq<char>>) -> Seq<(Seq<char>, TargetView)>
    decreases lines.len(),
{
    if lines.len() == 0 {
        Seq::empty()
    } else {
        let t = text::trimmed(bare(lines[0]));
        let rest = lines.drop_first();
        if opens_upstream(t) {
            let (found, passed) = first_server(rest, nesting(t));
            proof {
                lemma_first_server(rest, nesting(t));
            }
            let behind = upstream_seq(rest.skip(passed as int));
            match found {
                Some(target) => seq![(upstream_name(t), target)] + behind,
                None => behind,
            }
        } else {
            upstream_seq(rest)
        }
    }
}

/// The address in a `server` line of an upstream group.
fn parse_upstream_server(t: &str) -> (r: Option<ParsedProxyTarget>)
    ensures
        r.deep_view() == upstream_server(t@),
{
    if !text::starts_with(t, "server ") {
        return None;
    }
    proof {
        reveal_strlit("server");
    }
    let rest = text::trim_end_char(text::trim(text::trim_prefixes(t, "server")), ';');
    let address = text::nth_word(rest, 0);
    parse_host_port(address.as_str())
}

/// The upstream groups that a configuration text defines, each with its first
/// server.
pub fn scan_upstreams(source: &str) -> (r: Vec<(String, ParsedProxyTarget)>)
    requires
        source@.len() <= i32::MAX,
    ensures
        r.deep_view() == upstream_seq(text::line_seq(source@)),
{
    let lines = text::lines(source);
    let ghost all = lines.deep_view();
    let mut r: Vec<(String, ParsedProxyTarget)> = Vec::new();
    let mut index: usize = 0;
    proof {
        lemma_total_len(source@);
        assert(all.skip(0) =~= all);
        assert(r.deep_view() + upstream_seq(all) =~= upstream_seq(all));
    }
    while index < lines.len()
        invariant
            index <= lines.len(),
            all == lines.deep_view(),
            total_len(all) <= i32::MAX,
            upstream_seq(all) == r.deep_view() + upstream_seq(all.skip(index as int)),
        decreases lines.len() - index,
    {
        let ghost rest = all.skip(index as int);
        let ghost done = r.deep_view();
        let line = strip_comment(lines[index].as_str());
        let trimmed = text::trim(line.as_str());
        proof {
            assert(rest[0] == all[index as int]);
            assert(all[index as int] == lines@[index as int]@);
            assert(rest.drop_first() =~= all.skip(index + 1));
            lemma_nesting_bound(rest[0]);
            lemma_total_len_skip(all, index as int);
            assert(total_len(rest) == rest[0].len() + total_len(rest.drop_first()));
        }
        index = index + 1;
        if !text::starts_with(trimmed, "upstream ") || !text::contains_char(trimmed, '{') {
            continue ;
        }
        proof {
            reveal_strlit("upstream");
        }
        let first = text::nth_word(text::trim_prefixes(trimmed, "upstream"), 0);
        let name = text::trim_end_char(first.as_str(), '{');
        let mut depth: i32 = nesting_of(trimmed);
        let ghost inner = all.skip(index as int);
        let ghost opened = depth as int;
        let ghost mut passed: int = 0;
        let mut target: Option<ParsedProxyTarget> = None;
        assert(inner.skip(0) =~= inner);
        while index < lines.len() && depth > 0
            invariant_except_break
                target is None,
                depth + total_len(inner.skip(passed)) <= i32::MAX,
                -i32::MAX <= depth - total_len(inner.skip(passed)),
                first_server(inner, opened).0 == first_server(
                    inner.skip(passed),
                    depth as int,
                ).0,
                first_server(inner, opened).1 == passed + first_server(
                    inner.skip(passed),
                    depth as int,
                ).1,
            invariant
                0 <= passed <= inner.len(),
                index <= lines.len(),
                index == lines.len() - inner.len() + passed,
                inner.len() <= lines.len(),
                all == lines.deep_view(),
                inner == all.skip(lines.len() - inner.len()),
            ensures
                target.deep_view() == first_server(inner, opened).0,
                passed == first_server(inner, opened).1,
            decreases lines.len() - index,
        {
            let ghost here = inner.skip(passed);
            let line = strip_comment(lines[index].as_str());
            let trimmed = text::trim(line.as_str());
            proof {
                assert(inner.len() <= lines.len());
                assert(here[0] == inner[passed]);
                assert(here[0] == all[index as int]);
                assert(all[index as int] == lines@[index as int]@);
                assert(here.drop_first() =~= inner.skip(passed + 1));
                lemma_nesting_bound(here[0]);
                assert(total_len(here) == here[0].len() + total_len(here.drop_first()));
            }
            let found = parse_upstream_server(trimmed);
            if found.is_some() {
                target = found;
                break ;
            }
            depth = depth + nesting_of(trimmed);
            index = index + 1;
            proof {
                passed = passed + 1;
            }
        }
        proof {
            lemma_first_server(inner, opened);
            assert(inner.skip(passed) =~= all.skip(index as int));
        }
        match target {
            Some(target) => {
                let ghost pair = (name@, target.deep_view());
                r.push((name.to_owned(), target));
                assert(r.deep_view() =~= done.push(pair));
                assert(done + upstream_seq(rest) =~= r.deep_view() + upstream_seq(
                    all.skip(index as int),
                ));
            },
            None => {},
        }
    }
    assert(r.deep_view() + upstream_seq(all.skip(index as int)) =~= r.deep_view());
    r
}

proof fn lemma_total_len_skip(lines: Seq<Seq<char>>, n: int)
    requires
        0 <= n <= lines.len(),
    ensures
        total_len(lines.skip(n)) <= total_len(lines),
    decreases n,
{
    if n == 0 {
        assert(lines.skip(0) =~= lines);
    } else {
        lemma_total_len_skip(lines.drop_first(), n - 1);
        assert(lines.drop_first().skip(n - 1) =~= lines.skip(n));
    }
}

// ---------------------------------------------------------------------------
// What is kept, and what is read
// ---------------------------------------------------------------------------

/// What stands behind `#` is not looked at.
pub proof fn comment_is_not_read(line: Seq<char>, comment: Seq<char>, depth: int)
    requires
        !line.contains('#'),
    ensures
        bare(line) == line,
        bare(line + "#"@ + comment) == line,
        sanitized_line(line + "#"@ + comment, depth) == sanitized_line(line, depth),
        included(line + "#"@ + comment) == included(line),
{
    reveal_strlit("#");
    text::cut_is_at_the_character(line, '#', comment);
    assert(line + "#"@ + comment =~= line.push('#') + comment);
}

proof fn lemma_first_word(white: Seq<char>, name: Seq<char>, rest: Seq<char>, behind: Seq<char>)
    requires
        forall|k: int| 0 <= k < white.len() ==> text::white(#[trigger] white[k]),
        forall|k: int| 0 <= k < behind.len() ==> text::white(#[trigger] behind[k]),
        name.len() > 0,
        forall|k: int| 0 <= k < name.len() ==> !text::white(#[trigger] name[k]),
        name[0] != '}',
        rest.len() > 1,
        text::white(rest[0]),
        !text::white(rest.last()),
        !name.contains('#'),
        !rest.contains('#'),
    ensures
        ({
            let line = white + name + rest + behind;
            &&& bare(line) == line
            &&& text::trimmed(bare(line)) == name + rest
            &&& directive_name(name + rest) == name
        }),
{
    let line = white + name + rest + behind;
    let t = name + rest;
    let none = Seq::<char>::empty();
    assert(!line.contains('#')) by {
        assert forall|k: int| 0 <= k < line.len() implies line[k] != '#' by {
            if k < white.len() {
                assert(line[k] == white[k]);
            } else if k < white.len() + name.len() {
                assert(line[k] == name[k - white.len()]);
                assert(name.contains(name[k - white.len()]));
            } else if k < white.len() + name.len() + rest.len() {
                assert(line[k] == rest[k - white.len() - name.len()]);
                assert(rest.contains(rest[k - white.len() - name.len()]));
            } else {
                assert(line[k] == behind[k - white.len() - name.len() - rest.len()]);
            }
        }
    }
    comment_is_not_read(line, none, 0);
    assert(line =~= white + t + behind);
    assert(t[0] == name[0]);
    assert(t.last() == rest.last());
    text::trimming_takes_the_ends(white, t, behind);
    assert(none + name + rest =~= t);
    text::words_stand_between_white_space(none, name, rest);
    assert(text::word(t, 0) == name);
    text::stripping_takes_the_ends(none, name, none, '}');
    assert(none + name =~= name);
}

/// A line with one directive is kept as it is where the directive is one that is
/// understood, and left empty where it is not.
pub proof fn understood_directives_are_kept(
    white: Seq<char>,
    name: Seq<char>,
    arguments: Seq<char>,
    behind: Seq<char>,
)
    requires
        forall|k: int| 0 <= k < white.len() ==> text::white(#[trigger] white[k]),
        forall|k: int| 0 <= k < behind.len() ==> text::white(#[trigger] behind[k]),
        name.len() > 0,
        forall|k: int| 0 <= k < name.len() ==> !text::white(#[trigger] name[k]),
        name[0] != '}',
        !name.contains('#'),
        !name.contains('{'),
        arguments.len() > 0,
        text::white(arguments[0]),
        !arguments.contains('#'),
        !arguments.contains('{'),
    ensures
        ({
            let line = white + name + arguments + ";"@ + behind;
            sanitized_line(line, 0) == if seq![
                "include"@,
                "listen"@,
                "server_name"@,
                "proxy_pass"@,
                "proxy_set_header"@,
                "proxy_http_version"@,
                "proxy_connect_timeout"@,
                "proxy_read_timeout"@,
                "proxy_send_timeout"@,
                "return"@,
                "rewrite"@,
                "set"@,
                "root"@,
                "alias"@,
                "error_page"@,
                "try_files"@,
                "ssl_certificate"@,
                "ssl_certificate_key"@,
                "index"@,
            ].contains(name) {
                (line, 0int)
            } else {
                (Seq::<char>::empty(), 0int)
            }
        }),
{
    reveal_strlit(";");
    let rest = arguments + ";"@;
    let t = name + rest;
    assert(rest[0] == arguments[0]);
    assert(!rest.contains('#')) by {
        assert forall|k: int| 0 <= k < rest.len() implies rest[k] != '#' by {
            if k < arguments.len() {
                assert(arguments.contains(arguments[k]));
            }
        }
    }
    lemma_first_word(white, name, rest, behind);
    assert(white + name + arguments + ";"@ + behind =~= white + name + rest + behind);
    assert(!t.contains('{')) by {
        assert forall|k: int| 0 <= k < t.len() implies t[k] != '{' by {
            if k < name.len() {
                assert(name.contains(name[k]));
            } else if k < name.len() + arguments.len() {
                assert(t[k] == arguments[k - name.len()]);
                assert(arguments.contains(arguments[k - name.len()]));
            }
        }
    }
    let names = seq![
        "include"@,
        "listen"@,
        "server_name"@,
        "proxy_pass"@,
        "proxy_set_header"@,
        "proxy_http_version"@,
        "proxy_connect_timeout"@,
        "proxy_read_timeout"@,
        "proxy_send_timeout"@,
        "return"@,
        "rewrite"@,
        "set"@,
        "root"@,
        "alias"@,
        "error_page"@,
        "try_files"@,
        "ssl_certificate"@,
        "ssl_certificate_key"@,
        "index"@,
    ];
    assert(names.contains(name) <==> supported_directive(name)) by {
        assert(names[0] == "include"@);
        assert(names[1] == "listen"@);
        assert(names[2] == "server_name"@);
        assert(names[3] == "proxy_pass"@);
        assert(names[4] == "proxy_set_header"@);
        assert(names[5] == "proxy_http_version"@);
        assert(names[6] == "proxy_connect_timeout"@);
        assert(names[7] == "proxy_read_timeout"@);
        assert(names[8] == "proxy_send_timeout"@);
        assert(names[9] == "return"@);
        assert(names[10] == "rewrite"@);
        assert(names[11] == "set"@);
        assert(names[12] == "root"@);
        assert(names[13] == "alias"@);
        assert(names[14] == "error_page"@);
        assert(names[15] == "try_files"@);
        assert(names[16] == "ssl_certificate"@);
        assert(names[17] == "ssl_certificate_key"@);
        assert(names[18] == "index"@);
    }
}

/// A line that opens a block is kept as it is where the block is one that is
/// understood. Where it is not, the line is left empty, and so is all that
/// follows until the block is closed.
pub proof fn understood_blocks_are_kept(
    white: Seq<char>,
    name: Seq<char>,
    arguments: Seq<char>,
    behind: Seq<char>,
)
    requires
        forall|k: int| 0 <= k < white.len() ==> text::white(#[trigger] white[k]),
        forall|k: int| 0 <= k < behind.len() ==> text::white(#[trigger] behind[k]),
        name.len() > 0,
        forall|k: int| 0 <= k < name.len() ==> !text::white(#[trigger] name[k]),
        name[0] != '}',
        !name.contains('#'),
        !name.contains('{'),
        !name.contains('}'),
        arguments.len() > 0,
        text::white(arguments[0]),
        !arguments.contains('#'),
        !arguments.contains('{'),
        !arguments.contains('}'),
    ensures
        ({
            let line = white + name + arguments + "{"@ + behind;
            sanitized_line(line, 0) == if seq![
                "http"@,
                "server"@,
                "location"@,
                "if"@,
                "limit_except"@,
            ].contains(name) {
                (line, 0int)
            } else {
                (Seq::<char>::empty(), 1int)
            }
        }),
{
    reveal_strlit("{");
    let rest = arguments + "{"@;
    let t = name + rest;
    assert(rest[0] == arguments[0]);
    assert(!rest.contains('#')) by {
        assert forall|k: int| 0 <= k < rest.len() implies rest[k] != '#' by {
            if k < arguments.len() {
                assert(arguments.contains(arguments[k]));
            }
        }
    }
    lemma_first_word(white, name, rest, behind);
    assert(white + name + arguments + "{"@ + behind =~= white + name + rest + behind);
    assert(t[t.len() - 1] == '{');
    assert(t.contains('{'));
    text::every_occurrence_counts(name, rest, '{');
    text::every_occurrence_counts(name, rest, '}');
    text::every_occurrence_counts(arguments, "{"@, '{');
    text::every_occurrence_counts(arguments, "{"@, '}');
    assert("{"@ =~= seq!['{']);
    text::every_occurrence_counts("{"@, Seq::empty(), '}');
    assert(!"{"@.contains('}'));
    let names = seq!["http"@, "server"@, "location"@, "if"@, "limit_except"@];
    assert(names.contains(name) <==> supported_block(name)) by {
        assert(names[0] == "http"@);
        assert(names[1] == "server"@);
        assert(names[2] == "location"@);
        assert(names[3] == "if"@);
        assert(names[4] == "limit_except"@);
    }
}

/// An empty line and the end of a block are kept; inside a block that is not
/// understood nothing is kept, and its braces are counted.
pub proof fn ends_of_blocks_are_kept(
    white: Seq<char>,
    behind: Seq<char>,
    line: Seq<char>,
    depth: int,
)
    requires
        forall|k: int| 0 <= k < white.len() ==> text::white(#[trigger] white[k]),
        forall|k: int| 0 <= k < behind.len() ==> text::white(#[trigger] behind[k]),
        depth > 0,
    ensures
        sanitized_line(white, 0) == (Seq::<char>::empty(), 0int),
        sanitized_line(white + "}"@ + behind, 0) == (white + "}"@ + behind, 0int),
        sanitized_line(line, depth) == (
            Seq::<char>::empty(),
            depth + text::count(text::trimmed(bare(line)), '{') - text::count(
                text::trimmed(bare(line)),
                '}',
            ),
        ),
{
    reveal_strlit("}");
    let none = Seq::<char>::empty();
    let end = white + "}"@ + behind;
    assert(!white.contains('#')) by {
        assert forall|k: int| 0 <= k < white.len() implies white[k] != '#' by {
            assert(text::white(white[k]));
        }
    }
    assert(!end.contains('#')) by {
        assert forall|k: int| 0 <= k < end.len() implies end[k] != '#' by {
            if k < white.len() {
                assert(text::white(white[k]));
            } else if k > white.len() {
                assert(end[k] == behind[k - white.len() - 1]);
            }
        }
    }
    comment_is_not_read(white, none, 0);
    comment_is_not_read(end, none, 0);
    text::trimming_takes_the_ends(white, none, none);
    assert(white + none + none =~= white);
    text::trimming_takes_the_ends(white, "}"@, behind);
    assert(!"}"@.contains('{'));
    text::every_occurrence_counts(text::trimmed(bare(line)), none, '{');
    text::every_occurrence_counts(text::trimmed(bare(line)), none, '}');
    if text::trimmed(bare(line)).len() == 0 {
        assert(text::trimmed(bare(line)) =~= none);
    }
}

/// A block that is not understood is left empty as a whole, each of its lines,
/// however deep its braces go; what follows it is read as if it were not there.
/// `depths` holds how deep each line inside stands.
pub proof fn other_blocks_are_left_empty(
    open: Seq<char>,
    inside: Seq<Seq<char>>,
    close: Seq<char>,
    rest: Seq<Seq<char>>,
    depths: Seq<int>,
)
    requires
        sanitized_line(open, 0) == (Seq::<char>::empty(), 1int),
        depths.len() == inside.len() + 1,
        depths[0] == 1,
        forall|k: int|
            0 <= k < inside.len() ==> #[trigger] depths[k + 1] == depths[k] + text::count(
                text::trimmed(bare(inside[k])),
                '{',
            ) - text::count(text::trimmed(bare(inside[k])), '}'),
        forall|k: int| 0 <= k < depths.len() ==> #[trigger] depths[k] > 0,
        depths.last() + text::count(text::trimmed(bare(close)), '{') == text::count(
            text::trimmed(bare(close)),
            '}',
        ),
    ensures
        sanitized_lines(seq![open] + inside + seq![close] + rest, 0) == Seq::new(
            inside.len() + 2,
            |k: int| '\n',
        ) + sanitized_lines(rest, 0),
{
    let lines = seq![open] + inside + seq![close] + rest;
    assert(lines.drop_first() =~= inside + (seq![close] + rest));
    lemma_inside_of_a_block(inside, close, rest, depths);
    let many = Seq::new(inside.len() + 1, |k: int| '\n');
    assert(Seq::<char>::empty().push('\n') + (many + sanitized_lines(rest, 0)) =~= Seq::new(
        inside.len() + 2,
        |k: int| '\n',
    ) + sanitized_lines(rest, 0));
}

proof fn lemma_inside_of_a_block(
    inside: Seq<Seq<char>>,
    close: Seq<char>,
    rest: Seq<Seq<char>>,
    depths: Seq<int>,
)
    requires
        depths.len() == inside.len() + 1,
        forall|k: int|
            0 <= k < inside.len() ==> #[trigger] depths[k + 1] == depths[k] + text::count(
                text::trimmed(bare(inside[k])),
                '{',
            ) - text::count(text::trimmed(bare(inside[k])), '}'),
        forall|k: int| 0 <= k < depths.len() ==> #[trigger] depths[k] > 0,
        depths.last() + text::count(text::trimmed(bare(close)), '{') == text::count(
            text::trimmed(bare(close)),
            '}',
        ),
    ensures
        sanitized_lines(inside + (seq![close] + rest), depths[0]) == Seq::new(
            inside.len() + 1,
            |k: int| '\n',
        ) + sanitized_lines(rest, 0),
    decreases inside.len(),
{
    let none = Seq::<char>::empty();
    let lines = inside + (seq![close] + rest);
    assert(depths[0] > 0);
    ends_of_blocks_are_kept(none, none, lines[0], depths[0]);
    if inside.len() == 0 {
        assert(lines[0] == close);
        assert(lines.drop_first() =~= rest);
        assert(none.push('\n') =~= Seq::new(1, |k: int| '\n'));
    } else {
        let more = inside.drop_first();
        let deeper = depths.drop_first();
        assert(lines[0] == inside[0]);
        assert(lines.drop_first() =~= more + (seq![close] + rest));
        assert forall|k: int| 0 <= k < more.len() implies #[trigger] deeper[k + 1] == deeper[k]
            + text::count(text::trimmed(bare(more[k])), '{') - text::count(
            text::trimmed(bare(more[k])),
            '}',
        ) by {
            assert(depths[(k + 1) + 1] == depths[k + 1] + text::count(
                text::trimmed(bare(inside[k + 1])),
                '{',
            ) - text::count(text::trimmed(bare(inside[k + 1])), '}'));
            assert(more[k] == inside[k + 1]);
            assert(deeper[k + 1] == depths[(k + 1) + 1]);
        }
        assert forall|k: int| 0 <= k < deeper.len() implies #[trigger] deeper[k] > 0 by {
            assert(deeper[k] == depths[k + 1]);
        }
        assert(depths[0int + 1] == depths[0] + text::count(text::trimmed(bare(inside[0])), '{')
            - text::count(text::trimmed(bare(inside[0])), '}'));
        lemma_inside_of_a_block(more, close, rest, deeper);
        let many = Seq::new(more.len() + 1, |k: int| '\n');
        assert(none.push('\n') + (many + sanitized_lines(rest, 0)) =~= Seq::new(
            inside.len() + 1,
            |k: int| '\n',
        ) + sanitized_lines(rest, 0));
    }
}

/// A source is read line by line, each kept or left empty, and each with its end
/// of line.
pub proof fn source_is_read_by_line(line: Seq<char>, rest: Seq<Seq<char>>, depth: int)
    ensures
        ({
            let (kept, next) = sanitized_line(line, depth);
            &&& sanitized_lines(seq![line] + rest, depth) == kept + "\n"@ + sanitized_lines(
                rest,
                next,
            )
            &&& kept.len() == 0 || kept == bare(line)
        }),
        sanitized(Seq::empty()).len() == 0,
{
    reveal_strlit("\n");
    let (kept, next) = sanitized_line(line, depth);
    assert((seq![line] + rest).drop_first() =~= rest);
    assert(kept.push('\n') =~= kept + "\n"@);
}

/// An include is read, without the white space, the quotes and the semicolon
/// around its path.
pub proof fn written_include_reads_back(
    white: Seq<char>,
    blanks: Seq<char>,
    path: Seq<char>,
    behind: Seq<char>,
)
    requires
        forall|k: int| 0 <= k < white.len() ==> text::white(#[trigger] white[k]),
        forall|k: int| 0 <= k < blanks.len() ==> text::white(#[trigger] blanks[k]),
        forall|k: int| 0 <= k < behind.len() ==> text::white(#[trigger] behind[k]),
        path.len() > 0,
        !path.contains('#'),
        !text::white(path[0]),
        !text::white(path.last()),
        path.last() != ';',
        path[0] != '"',
        path.last() != '"',
        path[0] != '\'',
        path.last() != '\'',
    ensures
        included(white + "include "@ + blanks + path + ";"@ + behind) == Some(path),
        included(white + "include "@ + blanks + "\""@ + path + "\";"@ + behind) == Some(path),
        included(white + "include "@ + blanks + "'"@ + path + "';"@ + behind) == Some(path),
        included(white + "include "@ + blanks + path + behind) == Some(path),
{
    reveal_strlit(";");
    reveal_strlit("\"");
    reveal_strlit("'");
    reveal_strlit("\";");
    reveal_strlit("';");
    let none = Seq::<char>::empty();
    let double = "\""@ + path + "\""@;
    let single = "'"@ + path + "'"@;
    lemma_include(white, blanks, path, ";"@, behind);
    lemma_include(white, blanks, path, none, behind);
    assert(white + "include "@ + blanks + path + none + behind =~= white + "include "@ + blanks
        + path + behind);
    assert(!double.contains('#')) by {
        assert forall|k: int| 0 <= k < double.len() implies double[k] != '#' by {
            if 1 <= k <= path.len() {
                assert(double[k] == path[k - 1]);
                assert(path.contains(path[k - 1]));
            }
        }
    }
    assert(!single.contains('#')) by {
        assert forall|k: int| 0 <= k < single.len() implies single[k] != '#' by {
            if 1 <= k <= path.len() {
                assert(single[k] == path[k - 1]);
                assert(path.contains(path[k - 1]));
            }
        }
    }
    lemma_include(white, blanks, double, ";"@, behind);
    lemma_include(white, blanks, single, ";"@, behind);
    assert(white + "include "@ + blanks + "\""@ + path + "\";"@ + behind =~= white + "include "@
        + blanks + double + ";"@ + behind);
    assert(white + "include "@ + blanks + "'"@ + path + "';"@ + behind =~= white + "include "@
        + blanks + single + ";"@ + behind);
    assert(none + path + none =~= path);
    assert(none + single + none =~= single);
    text::stripping_takes_the_ends(none, path, none, '"');
    text::stripping_takes_the_ends(none, path, none, '\'');
    text::stripping_takes_the_ends("\""@, path, "\""@, '"');
    text::stripping_takes_the_ends(none, single, none, '"');
    text::stripping_takes_the_ends("'"@, path, "'"@, '\'');
}

proof fn lemma_include(
    white: Seq<char>,
    blanks: Seq<char>,
    path: Seq<char>,
    end: Seq<char>,
    behind: Seq<char>,
)
    requires
        forall|k: int| 0 <= k < white.len() ==> text::white(#[trigger] white[k]),
        forall|k: int| 0 <= k < blanks.len() ==> text::white(#[trigger] blanks[k]),
        forall|k: int| 0 <= k < behind.len() ==> text::white(#[trigger] behind[k]),
        path.len() > 0,
        !path.contains('#'),
        !text::white(path[0]),
        !text::white(path.last()),
        path.last() != ';',
        forall|k: int| 0 <= k < end.len() ==> #[trigger] end[k] == ';',
    ensures
        included(white + "include "@ + blanks + path + end + behind) == Some(
            text::without_ends(text::without_ends(path, '"'), '\''),
        ),
{
    reveal_strlit("include ");
    reveal_strlit("include");
    reveal_strlit(" ");
    let none = Seq::<char>::empty();
    let t = "include "@ + blanks + path + end;
    let line = white + t + behind;
    assert(white + "include "@ + blanks + path + end + behind =~= line);
    assert(!line.contains('#')) by {
        assert forall|k: int| 0 <= k < line.len() implies line[k] != '#' by {
            let a = white.len() as int;
            let b = a + 8;
            let c = b + blanks.len();
            let d = c + path.len();
            if k < a {
                assert(line[k] == white[k]);
            } else if k < b {
                assert(line[k] == "include "@[k - a]);
            } else if k < c {
                assert(line[k] == blanks[k - b]);
            } else if k < d {
                assert(line[k] == path[k - c]);
                assert(path.contains(path[k - c]));
            } else if k < d + end.len() {
                assert(line[k] == end[k - d]);
            } else {
                assert(line[k] == behind[k - d - end.len()]);
            }
        }
    }
    comment_is_not_read(line, none, 0);
    assert(t.last() == if end.len() == 0 {
        path.last()
    } else {
        end[end.len() - 1]
    });
    text::trimming_takes_the_ends(white, t, behind);
    assert(t.take(8) =~= "include "@);
    let tail = " "@ + blanks + path + end;
    assert(t =~= "include"@ + tail);
    assert(!text::starts(tail, "include"@)) by {
        if text::starts(tail, "include"@) {
            assert(tail.take(7)[0] == tail[0]);
        }
    }
    text::prefixes_are_taken_away("include"@, tail);
    let ended = path + end;
    assert(tail =~= (" "@ + blanks) + ended + none);
    assert forall|k: int| 0 <= k < (" "@ + blanks).len() implies text::white(
        #[trigger] (" "@ + blanks)[k],
    ) by {
        if k > 0 {
            assert((" "@ + blanks)[k] == blanks[k - 1]);
        }
    }
    text::trimming_takes_the_ends(" "@ + blanks, ended, none);
    text::stripping_takes_the_ends(none, path, end, ';');
}

/// A line that does not begin with `include ` includes nothing.
pub proof fn other_lines_are_no_includes(line: Seq<char>)
    ensures
        !text::starts(text::trimmed(bare(line)), "include "@) <==> included(line) is None,
{
}

/// The paths that a source includes come in the order of its lines, each below
/// the given directory.
pub proof fn includes_come_in_order(a: Seq<Seq<char>>, b: Seq<Seq<char>>, base: Seq<char>)
    ensures
        included_paths(a + b, base) == included_paths(a, base) + included_paths(b, base),
        a.len() == 0 ==> included_paths(a, base).len() == 0,
        a.len() == 1 ==> included_paths(a, base) == match included(a[0]) {
            Some(path) => seq![paths::below(base, path)],
            None => Seq::empty(),
        },
    decreases b.len(),
{
    reveal_with_fuel(included_paths, 2);
    if a.len() == 1 {
        assert(a.drop_last() =~= Seq::empty());
    }
    if b.len() == 0 {
        assert(a + b =~= a);
        assert(included_paths(a, base) + Seq::<Seq<char>>::empty() =~= included_paths(a, base));
    } else {
        includes_come_in_order(a, b.drop_last(), base);
        assert((a + b).drop_last() =~= a + b.drop_last());
        assert((a + b).last() == b.last());
        if included(b.last()) is Some {
            let path = paths::below(base, included(b.last())->0);
            assert((included_paths(a, base) + included_paths(b.drop_last(), base)).push(path)
                =~= included_paths(a, base) + included_paths(b.drop_last(), base).push(path));
        }
    }
}

proof fn lemma_brackets_are_taken(a: Seq<char>, m: Seq<char>, b: Seq<char>)
    requires
        forall|k: int| 0 <= k < a.len() ==> is_bracket(#[trigger] a[k]),
        forall|k: int| 0 <= k < b.len() ==> is_bracket(#[trigger] b[k]),
        m.len() > 0 ==> !is_bracket(m[0]) && !is_bracket(m.last()),
    ensures
        unbracketed_end(unbracketed_start(a + m + b)) == m,
        unbracketed_end(m + b) == m,
    decreases a.len() + b.len(),
{
    if a.len() > 0 {
        let t = a + m + b;
        let rest = a.drop_first();
        assert(t[0] == a[0]);
        assert(t.drop_first() =~= rest + m + b);
        assert forall|k: int| 0 <= k < rest.len() implies is_bracket(#[trigger] rest[k]) by {
            assert(rest[k] == a[k + 1]);
        }
        lemma_brackets_are_taken(rest, m, b);
    } else if b.len() > 0 {
        let t = m + b;
        assert(a + m + b =~= t);
        assert(t.last() == b[b.len() - 1]);
        assert(t.drop_last() =~= m + b.drop_last());
        assert(a + m + b.drop_last() =~= m + b.drop_last());
        lemma_brackets_are_taken(a, m, b.drop_last());
        if m.len() > 0 {
            assert(t[0] == m[0]);
            assert(unbracketed_start(t) == t);
        } else {
            assert(t =~= b);
            let rest = b.drop_first();
            assert(t[0] == b[0]);
            assert forall|k: int| 0 <= k < rest.len() implies is_bracket(#[trigger] rest[k]) by {
                assert(rest[k] == b[k + 1]);
            }
            assert(t.drop_first() =~= a + m + rest);
            lemma_brackets_are_taken(a, m, rest);
        }
    } else {
        assert(a + m + b =~= m);
        assert(m + b =~= m);
    }
}

/// A host and a port read back as these, without the brackets around the host,
/// whatever brackets these are.
pub proof fn written_authority_reads_back(
    before: Seq<char>,
    host: Seq<char>,
    behind: Seq<char>,
    port: u16,
)
    requires
        forall|k: int| 0 <= k < before.len() ==> #[trigger] before[k] == '[' || before[k] == ']',
        forall|k: int| 0 <= k < behind.len() ==> #[trigger] behind[k] == '[' || behind[k] == ']',
        host.len() > 0 ==> host[0] != '[' && host[0] != ']' && host.last() != '[' && host.last()
            != ']',
    ensures
        host_port(before + host + behind + ":"@ + number::decimal(port as nat)) == Some(
            TargetView { host, port },
        ),
        host_port(host + ":"@ + number::decimal(port as nat)) == Some(TargetView { host, port }),
{
    let none = Seq::<char>::empty();
    lemma_authority_reads_back(before, host, behind, port);
    lemma_authority_reads_back(none, host, none, port);
    assert(none + host + none =~= host);
}

proof fn lemma_authority_reads_back(
    before: Seq<char>,
    host: Seq<char>,
    behind: Seq<char>,
    port: u16,
)
    requires
        forall|k: int| 0 <= k < before.len() ==> #[trigger] before[k] == '[' || before[k] == ']',
        forall|k: int| 0 <= k < behind.len() ==> #[trigger] behind[k] == '[' || behind[k] == ']',
        host.len() > 0 ==> host[0] != '[' && host[0] != ']' && host.last() != '[' && host.last()
            != ']',
    ensures
        host_port(before + host + behind + ":"@ + number::decimal(port as nat)) == Some(
            TargetView { host, port },
        ),
{
    reveal_strlit(":");
    let digits = number::decimal(port as nat);
    let full = before + host + behind;
    let whole = full.push(':') + digits;
    number::written_number_is_digits(port as nat);
    number::written_number_reads_back(port as nat, 0xffff);
    assert(!digits.contains(':')) by {
        assert forall|k: int| 0 <= k < digits.len() implies digits[k] != ':' by {
            assert(number::is_digit(digits[k]));
        }
    }
    text::cut_is_at_the_character(full, ':', digits);
    assert(full + ":"@ + digits =~= whole);
    assert(whole.take(full.len() as int) =~= full);
    assert(whole.skip(full.len() as int + 1) =~= digits);
    lemma_brackets_are_taken(before, host, behind);
}

/// An authority without a colon, or without a port behind the last one, is not
/// read.
pub proof fn authority_needs_a_port(host: Seq<char>, port: Seq<char>)
    requires
        !port.contains(':'),
    ensures
        !host.contains(':') ==> host_port(host) is None,
        number::read_number(port, 0xffff) is Err ==> host_port(host + ":"@ + port) is None,
{
    reveal_strlit(":");
    text::cut_is_at_the_character(host, ':', port);
    let whole = host.push(':') + port;
    assert(host + ":"@ + port =~= whole);
    assert(whole.skip(host.len() as int + 1) =~= port);
}

/// A line that opens a group gives it its name, with or without white space in
/// front of the brace.
pub proof fn written_group_name_reads_back(
    white: Seq<char>,
    name: Seq<char>,
    gap: Seq<char>,
    behind: Seq<char>,
)
    requires
        forall|k: int| 0 <= k < white.len() ==> text::white(#[trigger] white[k]),
        forall|k: int| 0 <= k < gap.len() ==> text::white(#[trigger] gap[k]),
        forall|k: int| 0 <= k < behind.len() ==> text::white(#[trigger] behind[k]),
        name.len() > 0,
        forall|k: int| 0 <= k < name.len() ==> !text::white(#[trigger] name[k]),
        !name.contains('#'),
        !name.contains('{'),
        !name.contains('}'),
    ensures
        ({
            let t = text::trimmed(bare(white + "upstream "@ + name + gap + "{"@ + behind));
            &&& opens_upstream(t)
            &&& upstream_name(t) == name
            &&& nesting(t) == 1
        }),
{
    reveal_strlit("upstream ");
    reveal_strlit("upstream");
    reveal_strlit("{");
    reveal_strlit(" ");
    let none = Seq::<char>::empty();
    let t = "upstream "@ + name + gap + "{"@;
    let line = white + t + behind;
    assert(white + "upstream "@ + name + gap + "{"@ + behind =~= line);
    assert(!line.contains('#')) by {
        assert forall|k: int| 0 <= k < line.len() implies line[k] != '#' by {
            let a = white.len() as int;
            let b = a + 9;
            let c = b + name.len();
            let d = c + gap.len();
            if k < a {
                assert(line[k] == white[k]);
            } else if k < b {
                assert(line[k] == "upstream "@[k - a]);
            } else if k < c {
                assert(line[k] == name[k - b]);
                assert(name.contains(name[k - b]));
            } else if k < d {
                assert(line[k] == gap[k - c]);
            } else if k > d {
                assert(line[k] == behind[k - d - 1]);
            }
        }
    }
    comment_is_not_read(line, none, 0);
    text::trimming_takes_the_ends(white, t, behind);
    assert(t.take(9) =~= "upstream "@);
    assert(t[t.len() - 1] == '{');
    assert(t.contains('{'));
    let tail = " "@ + name + gap + "{"@;
    assert(t =~= "upstream"@ + tail);
    assert(!text::starts(tail, "upstream"@)) by {
        if text::starts(tail, "upstream"@) {
            assert(tail.take(8)[0] == tail[0]);
        }
    }
    text::prefixes_are_taken_away("upstream"@, tail);
    assert(name.contains(name[name.len() - 1]));
    if gap.len() == 0 {
        let word = name + "{"@;
        assert(tail =~= " "@ + word + none);
        assert forall|k: int| 0 <= k < word.len() implies !text::white(#[trigger] word[k]) by {
            if k < name.len() {
                assert(word[k] == name[k]);
            }
        }
        text::words_stand_between_white_space(" "@, word, none);
        text::stripping_takes_the_ends(none, name, "{"@, '{');
    } else {
        assert(tail =~= " "@ + name + (gap + "{"@));
        assert((gap + "{"@)[0] == gap[0]);
        text::words_stand_between_white_space(" "@, name, gap + "{"@);
        text::stripping_takes_the_ends(none, name, none, '{');
        assert(name + none =~= name);
    }
    lemma_one_brace("upstream "@, name, gap);
}

proof fn lemma_one_brace(front: Seq<char>, name: Seq<char>, gap: Seq<char>)
    requires
        front == "upstream "@,
        !name.contains('{'),
        !name.contains('}'),
        forall|k: int| 0 <= k < gap.len() ==> text::white(#[trigger] gap[k]),
    ensures
        nesting(front + name + gap + "{"@) == 1,
{
    reveal_strlit("upstream ");
    reveal_strlit("{");
    assert("{"@ =~= seq!['{']);
    assert(!"{"@.contains('}'));
    assert(!front.contains('{'));
    assert(!front.contains('}'));
    assert(!gap.contains('{')) by {
        assert forall|k: int| 0 <= k < gap.len() implies gap[k] != '{' by {
            assert(text::white(gap[k]));
        }
    }
    assert(!gap.contains('}')) by {
        assert forall|k: int| 0 <= k < gap.len() implies gap[k] != '}' by {
            assert(text::white(gap[k]));
        }
    }
    lemma_count_of_four(front, name, gap, "{"@, '{');
    lemma_count_of_four(front, name, gap, "{"@, '}');
    text::every_occurrence_counts("{"@, Seq::empty(), '{');
    text::every_occurrence_counts("{"@, Seq::empty(), '}');
}

proof fn lemma_count_of_four(a: Seq<char>, b: Seq<char>, c: Seq<char>, d: Seq<char>, x: char)
    requires
        !a.contains(x),
        !b.contains(x),
        !c.contains(x),
    ensures
        text::count(a + b + c + d, x) == text::count(d, x),
{
    text::every_occurrence_counts(a + b + c, d, x);
    text::every_occurrence_counts(a + b, c, x);
    text::every_occurrence_counts(a, b, x);
    text::every_occurrence_counts(b, c, x);
    text::every_occurrence_counts(c, d, x);
}

/// A server of a group is read by its host and its port, whatever options follow
/// them.
pub proof fn written_server_reads_back(
    white: Seq<char>,
    authority: Seq<char>,
    options: Seq<char>,
    behind: Seq<char>,
)
    requires
        forall|k: int| 0 <= k < white.len() ==> text::white(#[trigger] white[k]),
        forall|k: int| 0 <= k < behind.len() ==> text::white(#[trigger] behind[k]),
        authority.len() > 0,
        forall|k: int| 0 <= k < authority.len() ==> !text::white(#[trigger] authority[k]),
        !authority.contains('#'),
        authority.last() != ';',
        options.len() > 0 ==> text::white(options[0]) && options.last() != ';',
        !options.contains('#'),
    ensures
        upstream_server(
            text::trimmed(bare(white + "server "@ + authority + options + ";"@ + behind)),
        ) == host_port(authority),
{
    reveal_strlit("server ");
    reveal_strlit("server");
    reveal_strlit(";");
    reveal_strlit(" ");
    let none = Seq::<char>::empty();
    let t = "server "@ + authority + options + ";"@;
    let line = white + t + behind;
    assert(white + "server "@ + authority + options + ";"@ + behind =~= line);
    assert(!line.contains('#')) by {
        assert forall|k: int| 0 <= k < line.len() implies line[k] != '#' by {
            let a = white.len() as int;
            let b = a + 7;
            let c = b + authority.len();
            let d = c + options.len();
            if k < a {
                assert(line[k] == white[k]);
            } else if k < b {
                assert(line[k] == "server "@[k - a]);
            } else if k < c {
                assert(line[k] == authority[k - b]);
                assert(authority.contains(authority[k - b]));
            } else if k < d {
                assert(line[k] == options[k - c]);
                assert(options.contains(options[k - c]));
            } else if k > d {
                assert(line[k] == behind[k - d - 1]);
            }
        }
    }
    comment_is_not_read(line, none, 0);
    text::trimming_takes_the_ends(white, t, behind);
    assert(t.take(7) =~= "server "@);
    let tail = " "@ + authority + options + ";"@;
    assert(t =~= "server"@ + tail);
    assert(!text::starts(tail, "server"@)) by {
        if text::starts(tail, "server"@) {
            assert(tail.take(6)[0] == tail[0]);
        }
    }
    text::prefixes_are_taken_away("server"@, tail);
    let inner = authority + options;
    let ended = inner + ";"@;
    assert(tail =~= " "@ + ended + none);
    assert(ended[0] == authority[0]);
    text::trimming_takes_the_ends(" "@, ended, none);
    assert(inner.last() == if options.len() == 0 {
        authority.last()
    } else {
        options.last()
    });
    text::stripping_takes_the_ends(none, inner, ";"@, ';');
    assert(inner =~= none + authority + options);
    text::words_stand_between_white_space(none, authority, options);
}

/// How deep the lines of a group stand: `depths` holds it for each line, and for
/// what follows them.
pub open spec fn stand_at(lines: Seq<Seq<char>>, depths: Seq<int>) -> bool {
    &&& depths.len() == lines.len() + 1
    &&& forall|k: int|
        0 <= k < lines.len() ==> #[trigger] depths[k + 1] == depths[k] + text::count(
            text::trimmed(bare(lines[k])),
            '{',
        ) - text::count(text::trimmed(bare(lines[k])), '}')
    &&& forall|k: int| 0 <= k < lines.len() ==> #[trigger] depths[k] > 0
}

proof fn lemma_lines_are_passed(
    between: Seq<Seq<char>>,
    rest: Seq<Seq<char>>,
    depths: Seq<int>,
)
    requires
        stand_at(between, depths),
        forall|k: int|
            0 <= k < between.len() ==> upstream_server(
                text::trimmed(bare(#[trigger] between[k])),
            ) is None,
    ensures
        first_server(between + rest, depths[0]) == ({
            let (found, passed) = first_server(rest, depths.last());
            (found, passed + between.len())
        }),
    decreases between.len(),
{
    if between.len() == 0 {
        assert(between + rest =~= rest);
    } else {
        let more = between.drop_first();
        let deeper = depths.drop_first();
        assert((between + rest)[0] == between[0]);
        assert((between + rest).drop_first() =~= more + rest);
        assert(depths[0] > 0);
        assert forall|k: int| 0 <= k < more.len() implies #[trigger] deeper[k + 1] == deeper[k]
            + text::count(text::trimmed(bare(more[k])), '{') - text::count(
            text::trimmed(bare(more[k])),
            '}',
        ) by {
            assert(depths[(k + 1) + 1] == depths[k + 1] + text::count(
                text::trimmed(bare(between[k + 1])),
                '{',
            ) - text::count(text::trimmed(bare(between[k + 1])), '}'));
            assert(more[k] == between[k + 1]);
            assert(deeper[k + 1] == depths[(k + 1) + 1]);
        }
        assert forall|k: int| 0 <= k < more.len() implies #[trigger] deeper[k] > 0 by {
            assert(deeper[k] == depths[k + 1]);
        }
        assert forall|k: int| 0 <= k < more.len() implies upstream_server(
            text::trimmed(bare(#[trigger] more[k])),
        ) is None by {
            assert(more[k] == between[k + 1]);
        }
        assert(depths[0int + 1] == depths[0] + text::count(text::trimmed(bare(between[0])), '{')
            - text::count(text::trimmed(bare(between[0])), '}'));
        lemma_lines_are_passed(more, rest, deeper);
    }
}

/// A group stands for its first server that has a host and a port: the lines
/// before it in the group name none.
pub proof fn first_server_of_a_group_counts(
    open: Seq<char>,
    between: Seq<Seq<char>>,
    server: Seq<char>,
    rest: Seq<Seq<char>>,
    depths: Seq<int>,
    target: TargetView,
)
    requires
        opens_upstream(text::trimmed(bare(open))),
        depths.len() > 0,
        depths[0] == nesting(text::trimmed(bare(open))),
        stand_at(between, depths),
        depths.last() > 0,
        forall|k: int|
            0 <= k < between.len() ==> upstream_server(
                text::trimmed(bare(#[trigger] between[k])),
            ) is None,
        upstream_server(text::trimmed(bare(server))) == Some(target),
    ensures
        upstream_seq(seq![open] + between + seq![server] + rest) == seq![
            (upstream_name(text::trimmed(bare(open))), target),
        ] + upstream_seq(seq![server] + rest),
{
    let lines = seq![open] + between + seq![server] + rest;
    let more = seq![server] + rest;
    assert(lines.drop_first() =~= between + more);
    lemma_lines_are_passed(between, more, depths);
    lemma_first_server(between + more, depths[0]);
    assert((between + more).skip(between.len() as int) =~= more);
}

/// A group that is closed before it names a server stands for nothing, and a
/// line outside the groups neither.
pub proof fn group_without_a_server_stands_for_nothing(
    open: Seq<char>,
    inside: Seq<Seq<char>>,
    rest: Seq<Seq<char>>,
    depths: Seq<int>,
    other: Seq<char>,
)
    requires
        opens_upstream(text::trimmed(bare(open))),
        depths.len() > 0,
        depths[0] == nesting(text::trimmed(bare(open))),
        stand_at(inside, depths),
        depths.last() <= 0,
        forall|k: int|
            0 <= k < inside.len() ==> upstream_server(
                text::trimmed(bare(#[trigger] inside[k])),
            ) is None,
        !opens_upstream(text::trimmed(bare(other))),
    ensures
        upstream_seq(seq![open] + inside + rest) == upstream_seq(rest),
        upstream_seq(seq![other] + rest) == upstream_seq(rest),
        upstream_seq(Seq::empty()).len() == 0,
{
    let lines = seq![open] + inside + rest;
    assert(lines.drop_first() =~= inside + rest);
    lemma_lines_are_passed(inside, rest, depths);
    lemma_first_server(inside + rest, depths[0]);
    assert((inside + rest).skip(inside.len() as int) =~= rest);
    assert((seq![other] + rest).drop_first() =~= rest);
}

/// The braces that close blocks in front of a directive are not part of its
/// name.
pub proof fn closing_braces_are_no_name(braces: Seq<char>, name: Seq<char>, rest: Seq<char>)
    requires
        forall|k: int| 0 <= k < braces.len() ==> #[trigger] braces[k] == '}',
        name.len() > 0,
        forall|k: int| 0 <= k < name.len() ==> !text::white(#[trigger] name[k]),
        name[0] != '}',
        rest.len() > 0 ==> text::white(rest[0]),
    ensures
        directive_name(braces + name + rest) == name,
        directive_name(braces).len() == 0,
{
    let none = Seq::<char>::empty();
    let word = braces + name;
    assert forall|k: int| 0 <= k < braces.len() implies !text::white(#[trigger] braces[k]) by {}
    if braces.len() > 0 {
        assert(none + braces + none =~= braces);
        text::words_stand_between_white_space(none, braces, none);
    }
    assert forall|k: int| 0 <= k < word.len() implies !text::white(#[trigger] word[k]) by {
        if k < braces.len() {
            assert(word[k] == braces[k]);
        } else {
            assert(word[k] == name[k - braces.len()]);
        }
    }
    assert(none + word + rest =~= braces + name + rest);
    text::words_stand_between_white_space(none, word, rest);
    text::stripping_takes_the_ends(braces, name, none, '}');
}

/// Outside the blocks that are not understood, a line is kept exactly where the
/// block that it opens is understood, if it opens one, and the directive that it
/// ends is, if it ends one.
pub proof fn line_is_kept_where_it_is_understood(line: Seq<char>)
    requires
        text::trimmed(bare(line)).len() > 0,
    ensures
        ({
            let t = text::trimmed(bare(line));
            let name = directive_name(t);
            sanitized_line(line, 0).0 == bare(line) <==> {
                &&& t.contains('{') ==> supported_block(name)
                &&& t.last() == ';' ==> supported_directive(name)
            }
        }),
        !text::trimmed(bare(line)).contains('{') && text::trimmed(bare(line)).last() != ';'
            ==> sanitized_line(line, 0) == (bare(line), 0int),
{
    let t = text::trimmed(bare(line));
    if bare(line).len() == 0 {
        assert(bare(line) =~= Seq::empty());
    }
}

/// A group is opened by a line that begins with `upstream ` and holds a brace,
/// and by no other.
pub proof fn only_an_upstream_opens_a_group(t: Seq<char>)
    ensures
        opens_upstream(t) <==> text::starts(t, "upstream "@) && t.contains('{'),
        upstream_server(t) is Some ==> text::starts(t, "server "@),
{
}

} // verus!
