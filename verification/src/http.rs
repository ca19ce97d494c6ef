//! The parts of HTTP that a health check needs: the address, the request, and
//! the status of the answer.
use vstd::prelude::*;

use crate::failure;
use crate::failure::{ErrorKind, Failure, FailureView};
use crate::number;
use crate::text;

verus! {

/// An address: where to connect to, and what to ask for.
#[derive(Debug, PartialEq, Eq)]
pub struct HttpUrl {
    pub host: String,
    pub port: u16,
    pub path: String,
}

/// What an [`HttpUrl`] holds.
pub struct UrlView {
    pub host: Seq<char>,
    pub port: u16,
    pub path: Seq<char>,
}

impl DeepView for HttpUrl {
    type V = UrlView;

    open spec fn deep_view(&self) -> UrlView {
        UrlView { host: self.host@, port: self.port, path: self.path@ }
    }
}

/// What a URL says: `http://`, a host, a port behind the last colon, and a
/// path, which may be left out.
pub open spec fn url_parts(url: Seq<char>) -> Result<UrlView, FailureView> {
    if !text::starts(url, "http://"@) {
        Err(
            FailureView {
                kind: ErrorKind::InvalidInput,
                message: "only http:// health URLs are supported: "@ + url,
            },
        )
    } else {
        let rest = url.skip("http://"@.len() as int);
        let authority = text::head(rest, '/');
        let path = if rest.contains('/') {
            "/"@ + text::tail(rest, '/')
        } else {
            "/"@
        };
        let colon = text::last_position(authority, ':');
        if colon < 0 {
            Err(
                FailureView {
                    kind: ErrorKind::InvalidInput,
                    message: "HTTP health URL needs a port"@,
                },
            )
        } else {
            match number::read_number(authority.skip(colon + 1), 0xffff) {
                Ok(port) => Ok(UrlView { host: authority.take(colon), port: port as u16, path }),
                Err(error) => Err(
                    FailureView { kind: ErrorKind::InvalidInput, message: error.words() },
                ),
            }
        }
    }
}

/// What a URL says.
pub fn parse_http_url(url: &str) -> (r: Result<HttpUrl, Failure>)
    ensures
        failure::outcome(r) == url_parts(url@),
{
    let rest = match text::strip_prefix(url, "http://") {
        Some(rest) => rest,
        None => {
            return Err(
                Failure::new(
                    ErrorKind::InvalidInput,
                    text::concat("only http:// health URLs are supported: ", url),
                ),
            );
        },
    };
    let authority = text::head_of(rest, '/');
    let path = match text::split_once(rest, '/') {
        Some((_, path)) => text::concat("/", path),
        None => "/".to_owned(),
    };
    match text::rsplit_once(authority, ':') {
        None => Err(
            Failure::new(ErrorKind::InvalidInput, "HTTP health URL needs a port".to_owned()),
        ),
        Some((host, port)) => match number::parse_u16(port) {
            Ok(port) => Ok(HttpUrl { host: host.to_owned(), port, path }),
            Err(error) => Err(Failure::new(ErrorKind::InvalidInput, error.message())),
        },
    }
}

/// The header lines of a request.
pub open spec fn header_lines(headers: Seq<(Seq<char>, Seq<char>)>) -> Seq<char>
    decreases headers.len(),
{
    if headers.len() == 0 {
        Seq::empty()
    } else {
        header_lines(headers.drop_last()) + headers.last().0 + ": "@ + headers.last().1 + "\r\n"@
    }
}

/// The request of a health check.
pub open spec fn request(method: Seq<char>, url: UrlView, headers: Seq<(Seq<char>, Seq<char>)>) -> Seq<
    char,
> {
    method + " "@ + url.path + " HTTP/1.1\r\nHost: "@ + url.host + "\r\nConnection: close\r\n"@
        + header_lines(headers) + "\r\n"@
}

/// The request of a health check.
pub fn http_request(method: &str, url: &HttpUrl, headers: &Vec<(String, String)>) -> (r: String)
    ensures
        r@ == request(method@, url.deep_view(), headers.deep_view()),
{
    let ghost all = headers.deep_view();
    let mut lines = String::new();
    let mut i: usize = 0;
    assert(all.take(0) =~= Seq::empty());
    while i < headers.len()
        invariant
            i <= headers.len(),
            all == headers.deep_view(),
            lines@ == header_lines(all.take(i as int)),
        decreases headers.len() - i,
    {
        assert(all.take(i + 1).drop_last() =~= all.take(i as int));
        assert(all[i as int] == headers@[i as int].deep_view());
        lines.append(headers[i].0.as_str());
        lines.append(": ");
        lines.append(headers[i].1.as_str());
        lines.append("\r\n");
        i = i + 1;
    }
    assert(all.take(headers.len() as int) =~= all);
    let mut r = text::concat(method, " ");
    r.append(url.path.as_str());
    r.append(" HTTP/1.1\r\nHost: ");
    r.append(url.host.as_str());
    r.append("\r\nConnection: close\r\n");
    r.append(lines.as_str());
    r.append("\r\n");
    r
}

/// The status in the first line of an answer.
pub open spec fn status_of(response: Seq<char>) -> Option<u16> {
    let lines = text::line_seq(response);
    if lines.len() == 0 {
        None
    } else {
        let words = text::word_seq(lines[0]);
        if words.len() < 2 {
            None
        } else {
            match number::read_number(words[1], 0xffff) {
                Ok(status) => Some(status as u16),
                Err(_) => None,
            }
        }
    }
}

/// The status in the first line of an answer.
pub fn response_status(response: &str) -> (r: Result<u16, Failure>)
    ensures
        match status_of(response@) {
            Some(status) => r == Ok::<u16, Failure>(status),
            None => r is Err && r->Err_0.deep_view() == (FailureView {
                kind: ErrorKind::InvalidData,
                message: "invalid HTTP response"@,
            }),
        },
{
    let lines = text::lines(response);
    assert(lines.deep_view().len() == lines.len());
    if lines.len() > 0 {
        assert(lines.deep_view()[0] == lines@[0]@);
        let words = text::words(lines[0].as_str());
        assert(words.deep_view().len() == words.len());
        if words.len() >= 2 {
            assert(words.deep_view()[1] == words@[1]@);
            if let Ok(status) = number::parse_u16(words[1].as_str()) {
                return Ok(status);
            }
        }
    }
    Err(Failure::new(ErrorKind::InvalidData, "invalid HTTP response".to_owned()))
}

/// A URL that is put together from a host, a port and a path is read as these.
pub proof fn url_reads_back(host: Seq<char>, port: u16, path: Seq<char>)
    requires
        !host.contains('/'),
        path.len() > 0,
        path[0] == '/',
    ensures
        url_parts("http://"@ + host + ":"@ + number::decimal(port as nat) + path) == Ok::<
            UrlView,
            FailureView,
        >(UrlView { host, port, path }),
{
    let digits = number::decimal(port as nat);
    let url = "http://"@ + host + ":"@ + digits + path;
    let n = "http://"@.len() as int;
    let rest = url.skip(n);
    let authority = host + ":"@ + digits;
    reveal_strlit(":");
    reveal_strlit("/");
    assert(url.take(n) =~= "http://"@);
    assert(text::starts(url, "http://"@));
    assert(rest =~= authority + path);
    number::written_number_is_digits(port as nat);
    assert forall|k: int| 0 <= k < authority.len() implies authority[k] != '/' by {
        if k < host.len() {
            assert(authority[k] == host[k]);
        } else if k > host.len() {
            assert(authority[k] == digits[k - host.len() - 1]);
            assert(number::is_digit(digits[k - host.len() - 1]));
        }
    }
    assert forall|k: int| 0 <= k < authority.len() implies rest[k] != '/' by {
        assert(rest[k] == authority[k]);
    }
    assert(rest[authority.len() as int] == path[0]);
    text::lemma_position_is(rest, '/', authority.len() as int);
    assert(text::head(rest, '/') =~= authority);
    assert("/"@ + text::tail(rest, '/') =~= path);
    assert forall|k: int| host.len() < k < authority.len() implies authority[k] != ':' by {
        assert(authority[k] == digits[k - host.len() - 1]);
        assert(number::is_digit(digits[k - host.len() - 1]));
    }
    text::lemma_last_position_is(authority, ':', host.len() as int);
    assert(authority.take(host.len() as int) =~= host);
    assert(authority.skip(host.len() as int + 1) =~= digits);
    number::written_number_reads_back(port as nat, 0xffff);
}

/// A URL without a path asks for `/`.
pub proof fn url_without_a_path_reads_back(host: Seq<char>, port: u16)
    requires
        !host.contains('/'),
    ensures
        url_parts("http://"@ + host + ":"@ + number::decimal(port as nat)) == Ok::<
            UrlView,
            FailureView,
        >(UrlView { host, port, path: "/"@ }),
{
    let digits = number::decimal(port as nat);
    let url = "http://"@ + host + ":"@ + digits;
    let n = "http://"@.len() as int;
    let rest = host.push(':') + digits;
    reveal_strlit(":");
    assert(url.take(n) =~= "http://"@);
    assert(url.skip(n) =~= rest);
    number::written_number_is_digits(port as nat);
    assert(!rest.contains('/')) by {
        assert forall|k: int| 0 <= k < rest.len() implies rest[k] != '/' by {
            if k < host.len() {
                assert(host.contains(host[k]));
            } else if k > host.len() {
                assert(rest[k] == digits[k - host.len() - 1]);
                assert(number::is_digit(digits[k - host.len() - 1]));
            }
        }
    }
    text::cut_is_at_the_character(rest, '/', Seq::empty());
    assert(!digits.contains(':')) by {
        assert forall|k: int| 0 <= k < digits.len() implies digits[k] != ':' by {
            assert(number::is_digit(digits[k]));
        }
    }
    text::cut_is_at_the_character(host, ':', digits);
    assert(rest.take(host.len() as int) =~= host);
    assert(rest.skip(host.len() as int + 1) =~= digits);
    number::written_number_reads_back(port as nat, 0xffff);
}

/// Only a URL that begins with `http://` is taken, and only one that has a port
/// that can be read.
pub proof fn other_urls_are_refused(
    url: Seq<char>,
    host: Seq<char>,
    port: Seq<char>,
    path: Seq<char>,
)
    requires
        !port.contains('/'),
        !port.contains(':'),
        !host.contains('/'),
        !host.contains(':'),
        path.len() > 0 ==> path[0] == '/',
    ensures
        !text::starts(url, "http://"@) ==> url_parts(url) == Err::<UrlView, FailureView>(
            FailureView {
                kind: ErrorKind::InvalidInput,
                message: "only http:// health URLs are supported: "@ + url,
            },
        ),
        url_parts("http://"@ + host + path) == Err::<UrlView, FailureView>(
            FailureView {
                kind: ErrorKind::InvalidInput,
                message: "HTTP health URL needs a port"@,
            },
        ),
        number::read_number(port, 0xffff) matches Err(error) ==> url_parts(
            "http://"@ + host + ":"@ + port + path,
        ) == Err::<UrlView, FailureView>(
            FailureView { kind: ErrorKind::InvalidInput, message: error.words() },
        ),
{
    lemma_port_is_read(host, port, path);
    let n = "http://"@.len() as int;
    let whole = "http://"@ + host + path;
    assert(whole.take(n) =~= "http://"@);
    assert(whole.skip(n) =~= host + path);
    text::cut_is_at_the_character(host, ':', Seq::empty());
    if path.len() == 0 {
        assert(host + path =~= host);
        text::cut_is_at_the_character(host, '/', Seq::empty());
    } else {
        text::cut_is_at_the_character(host, '/', path.drop_first());
        assert(host + path =~= host.push('/') + path.drop_first());
    }
}

proof fn lemma_header_lines(headers: Seq<(Seq<char>, Seq<char>)>, behind: Seq<char>)
    requires
        forall|i: int|
            0 <= i < headers.len() ==> !(#[trigger] headers[i]).0.contains('\n')
                && !headers[i].1.contains('\n'),
    ensures
        text::line_seq(header_lines(headers) + behind) == headers.map_values(
            |h: (Seq<char>, Seq<char>)| h.0 + ": "@ + h.1,
        ) + text::line_seq(behind),
    decreases headers.len(),
{
    let written = |h: (Seq<char>, Seq<char>)| h.0 + ": "@ + h.1;
    if headers.len() == 0 {
        assert(header_lines(headers) + behind =~= behind);
        assert(headers.map_values(written) + text::line_seq(behind) =~= text::line_seq(behind));
    } else {
        reveal_strlit(": ");
        reveal_strlit("\r\n");
        let h = headers.last();
        let line = h.0 + ": "@ + h.1;
        let more = line.push('\r').push('\n') + behind;
        assert(header_lines(headers) + behind =~= header_lines(headers.drop_last()) + more);
        lemma_header_lines(headers.drop_last(), more);
        assert(headers[headers.len() - 1] == h);
        assert(!line.contains('\n')) by {
            assert forall|k: int| 0 <= k < line.len() implies line[k] != '\n' by {
                if k < h.0.len() {
                    assert(h.0.contains(h.0[k]));
                } else if k >= h.0.len() + 2 {
                    assert(line[k] == h.1[k - h.0.len() - 2]);
                    assert(h.1.contains(h.1[k - h.0.len() - 2]));
                }
            }
        }
        text::lines_stand_before_their_ends(line, behind);
        assert(headers.map_values(written) =~= headers.drop_last().map_values(written).push(line));
        assert(headers.drop_last().map_values(written) + (seq![line] + text::line_seq(behind))
            =~= headers.map_values(written) + text::line_seq(behind));
    }
}

/// The lines of a request: what is asked for, the host, that the connection is
/// closed, each header in order, and an empty line at the end.
pub proof fn request_is_read_by_line(
    method: Seq<char>,
    url: UrlView,
    headers: Seq<(Seq<char>, Seq<char>)>,
)
    requires
        !method.contains('\n'),
        !url.path.contains('\n'),
        !url.host.contains('\n'),
        forall|i: int|
            0 <= i < headers.len() ==> !(#[trigger] headers[i]).0.contains('\n')
                && !headers[i].1.contains('\n'),
    ensures
        text::line_seq(request(method, url, headers)) == seq![
            method + " "@ + url.path + " HTTP/1.1"@,
            "Host: "@ + url.host,
            "Connection: close"@,
        ] + headers.map_values(|h: (Seq<char>, Seq<char>)| h.0 + ": "@ + h.1) + seq![
            Seq::<char>::empty(),
        ],
{
    reveal_strlit(" ");
    reveal_strlit(" HTTP/1.1");
    reveal_strlit("Host: ");
    reveal_strlit("Connection: close");
    reveal_strlit(" HTTP/1.1\r\nHost: ");
    reveal_strlit("\r\nConnection: close\r\n");
    reveal_strlit("\r\n");
    let none = Seq::<char>::empty();
    let asked = method + " "@ + url.path + " HTTP/1.1"@;
    let host = "Host: "@ + url.host;
    let close = "Connection: close"@;
    let end = none.push('\r').push('\n') + none;
    let behind = header_lines(headers) + end;
    let third = close.push('\r').push('\n') + behind;
    let second = host.push('\r').push('\n') + third;
    assert(end =~= "\r\n"@);
    assert("\r\nConnection: close\r\n"@ =~= "\r\n"@ + close + "\r\n"@);
    assert(" HTTP/1.1\r\nHost: "@ =~= " HTTP/1.1"@ + "\r\n"@ + "Host: "@);
    assert(third =~= close + "\r\n"@ + behind);
    assert(second =~= "Host: "@ + url.host + "\r\n"@ + third);
    assert(request(method, url, headers) =~= method + " "@ + url.path + (" HTTP/1.1"@ + "\r\n"@
        + "Host: "@) + url.host + ("\r\n"@ + close + "\r\n"@) + header_lines(headers) + "\r\n"@);
    assert(request(method, url, headers) =~= asked.push('\r').push('\n') + second);
    assert(!asked.contains('\n')) by {
        assert forall|k: int| 0 <= k < asked.len() implies asked[k] != '\n' by {
            if k < method.len() {
                assert(method.contains(method[k]));
            } else if method.len() < k < method.len() + 1 + url.path.len() {
                assert(asked[k] == url.path[k - method.len() - 1]);
                assert(url.path.contains(url.path[k - method.len() - 1]));
            }
        }
    }
    assert(!host.contains('\n')) by {
        assert forall|k: int| 0 <= k < host.len() implies host[k] != '\n' by {
            if k >= 6 {
                assert(host[k] == url.host[k - 6]);
                assert(url.host.contains(url.host[k - 6]));
            }
        }
    }
    text::lines_stand_before_their_ends(asked, second);
    text::lines_stand_before_their_ends(host, third);
    text::lines_stand_before_their_ends(close, behind);
    lemma_header_lines(headers, end);
    text::lines_stand_before_their_ends(none, none);
    let written = headers.map_values(|h: (Seq<char>, Seq<char>)| h.0 + ": "@ + h.1);
    assert(seq![none] + text::line_seq(none) =~= seq![none]);
    assert(seq![asked] + (seq![host] + (seq![close] + (written + seq![none]))) =~= seq![
        asked,
        host,
        close,
    ] + written + seq![none]);
}

/// Every header is a line of the request, whatever it holds.
pub proof fn every_header_is_sent(
    method: Seq<char>,
    url: UrlView,
    headers: Seq<(Seq<char>, Seq<char>)>,
    i: int,
)
    requires
        0 <= i < headers.len(),
    ensures
        text::contains_text(
            request(method, url, headers),
            headers[i].0 + ": "@ + headers[i].1 + "\r\n"@,
        ),
{
    let line = headers[i].0 + ": "@ + headers[i].1 + "\r\n"@;
    let (front, behind) = lemma_header_is_a_line(headers, i);
    let start = method + " "@ + url.path + " HTTP/1.1\r\nHost: "@ + url.host
        + "\r\nConnection: close\r\n"@;
    assert(start + (front + line + behind) + "\r\n"@ =~= (start + front) + line + (behind
        + "\r\n"@));
    text::text_occurs_where_it_stands(start + front, line, behind + "\r\n"@);
}

proof fn lemma_header_is_a_line(headers: Seq<(Seq<char>, Seq<char>)>, i: int) -> (r: (
    Seq<char>,
    Seq<char>,
))
    requires
        0 <= i < headers.len(),
    ensures
        header_lines(headers) == r.0 + (headers[i].0 + ": "@ + headers[i].1 + "\r\n"@) + r.1,
    decreases headers.len(),
{
    let front = header_lines(headers.drop_last());
    let last = headers.last().0 + ": "@ + headers.last().1 + "\r\n"@;
    assert(header_lines(headers) =~= front + last);
    if i == headers.len() - 1 {
        assert(front + last =~= front + last + Seq::<char>::empty());
        (front, Seq::empty())
    } else {
        let (a, b) = lemma_header_is_a_line(headers.drop_last(), i);
        let line = headers[i].0 + ": "@ + headers[i].1 + "\r\n"@;
        assert(a + line + b + last =~= a + line + (b + last));
        (a, b + last)
    }
}

/// The status of an answer is the number behind the version in its first line,
/// whatever white space stands around the two, and whatever else the line and the
/// answer hold. An answer that is empty, or that holds nothing behind the version,
/// has none.
pub proof fn written_status_reads_back(
    before: Seq<char>,
    version: Seq<char>,
    gap: Seq<char>,
    status: u16,
    phrase: Seq<char>,
    behind: Seq<char>,
)
    requires
        forall|k: int| 0 <= k < before.len() ==> text::white(#[trigger] before[k]),
        !before.contains('\n'),
        version.len() > 0,
        forall|k: int| 0 <= k < version.len() ==> !text::white(#[trigger] version[k]),
        gap.len() > 0,
        forall|k: int| 0 <= k < gap.len() ==> text::white(#[trigger] gap[k]),
        !gap.contains('\n'),
        phrase.len() > 0 ==> text::white(phrase[0]),
        !phrase.contains('\n'),
    ensures
        status_of(
            before + version + gap + number::decimal(status as nat) + phrase + "\r\n"@ + behind,
        ) == Some(status),
        text::word_seq(phrase).len() == 0 ==> status_of(before + version + phrase) is None,
        behind.len() == 0 ==> status_of(behind) is None,
{
    reveal_strlit("\r\n");
    let none = Seq::<char>::empty();
    let digits = number::decimal(status as nat);
    number::written_number_is_digits(status as nat);
    let rest = gap + digits + phrase;
    let line = before + version + rest;
    assert(before + version + gap + digits + phrase =~= line);
    assert(!version.contains('\n')) by {
        assert forall|k: int| 0 <= k < version.len() implies version[k] != '\n' by {
            assert(!text::white(version[k]));
        }
    }
    assert(!digits.contains('\n')) by {
        assert forall|k: int| 0 <= k < digits.len() implies digits[k] != '\n' by {
            assert(number::is_digit(digits[k]));
        }
    }
    lemma_no_line_end(before, version, Seq::empty());
    lemma_no_line_end(gap, digits, phrase);
    assert(before + version + none =~= before + version);
    lemma_no_line_end(before + version, rest, none);
    assert(line + none =~= line);
    text::lines_stand_before_their_ends(line, behind);
    assert(line + "\r\n"@ + behind =~= line.push('\r').push('\n') + behind);
    assert(rest[0] == gap[0]);
    text::words_stand_between_white_space(before, version, rest);
    assert forall|k: int| 0 <= k < digits.len() implies !text::white(#[trigger] digits[k]) by {
        assert(number::is_digit(digits[k]));
    }
    text::words_stand_between_white_space(gap, digits, phrase);
    number::written_number_reads_back(status as nat, 0xffff);
    let short = before + version + phrase;
    text::words_stand_between_white_space(before, version, phrase);
    lemma_no_line_end(before, version, phrase);
    text::lines_stand_before_their_ends(short, none);
}

proof fn lemma_no_line_end(a: Seq<char>, b: Seq<char>, c: Seq<char>)
    requires
        !a.contains('\n'),
        !b.contains('\n'),
        !c.contains('\n'),
    ensures
        !(a + b + c).contains('\n'),
{
    let all = a + b + c;
    assert forall|k: int| 0 <= k < all.len() implies all[k] != '\n' by {
        if k < a.len() {
            assert(a.contains(a[k]));
        } else if k < a.len() + b.len() {
            assert(all[k] == b[k - a.len()]);
            assert(b.contains(b[k - a.len()]));
        } else {
            assert(all[k] == c[k - a.len() - b.len()]);
            assert(c.contains(c[k - a.len() - b.len()]));
        }
    }
}

proof fn lemma_port_is_read(host: Seq<char>, port: Seq<char>, path: Seq<char>)
    requires
        !host.contains('/'),
        !port.contains('/'),
        !port.contains(':'),
        path.len() > 0 ==> path[0] == '/',
    ensures
        number::read_number(port, 0xffff) matches Err(error) ==> url_parts(
            "http://"@ + host + ":"@ + port + path,
        ) == Err::<UrlView, FailureView>(
            FailureView { kind: ErrorKind::InvalidInput, message: error.words() },
        ),
{
    reveal_strlit(":");
    let n = "http://"@.len() as int;
    let whole = "http://"@ + host + ":"@ + port + path;
    let authority = host.push(':') + port;
    assert(whole.take(n) =~= "http://"@);
    assert(whole.skip(n) =~= authority + path);
    assert(!authority.contains('/')) by {
        assert forall|k: int| 0 <= k < authority.len() implies authority[k] != '/' by {
            if k < host.len() {
                assert(host.contains(host[k]));
            } else if k > host.len() {
                assert(authority[k] == port[k - host.len() - 1]);
                assert(port.contains(port[k - host.len() - 1]));
            }
        }
    }
    if path.len() == 0 {
        assert(authority + path =~= authority);
        text::cut_is_at_the_character(authority, '/', Seq::empty());
    } else {
        text::cut_is_at_the_character(authority, '/', path.drop_first());
        assert(authority + path =~= authority.push('/') + path.drop_first());
    }
    text::cut_is_at_the_character(host, ':', port);
    assert(authority.skip(host.len() as int + 1) =~= port);
}

} // verus!
