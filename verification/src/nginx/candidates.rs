//! The places in a configuration that pass requests on to a backend.
use vstd::prelude::*;

use crate::nginx::source;
use crate::nginx::source::{ParsedProxyTarget, TargetView};
use crate::nginx::syntax;
use crate::nginx::syntax::{ItemView, NginxItem, NginxName};
use crate::number;
use crate::text;

verus! {

/// A configuration file: its path, and its text.
#[derive(Debug)]
pub struct NginxScanFile {
    pub path: String,
    pub source: String,
}

/// What an [`NginxScanFile`] holds.
pub struct ScanFileView {
    pub path: Seq<char>,
    pub source: Seq<char>,
}

impl DeepView for NginxScanFile {
    type V = ScanFileView;

    open spec fn deep_view(&self) -> ScanFileView {
        ScanFileView { path: self.path@, source: self.source@ }
    }
}

/// A `proxy_pass` directive whose backend is known, with what stands around it.
#[derive(Debug)]
pub struct NginxCandidate {
    pub file: String,
    pub server_names: Vec<String>,
    pub listens: Vec<String>,
    pub location: String,
    pub proxy_pass: String,
    pub target_host: String,
    pub target_port: u16,
    pub score: i32,
}

/// What an [`NginxCandidate`] holds.
pub struct CandidateView {
    pub file: Seq<char>,
    pub server_names: Seq<Seq<char>>,
    pub listens: Seq<Seq<char>>,
    pub location: Seq<char>,
    pub proxy_pass: Seq<char>,
    pub target_host: Seq<char>,
    pub target_port: u16,
    pub score: i32,
}

impl DeepView for NginxCandidate {
    type V = CandidateView;

    open spec fn deep_view(&self) -> CandidateView {
        CandidateView {
            file: self.file@,
            server_names: self.server_names.deep_view(),
            listens: self.listens.deep_view(),
            location: self.location@,
            proxy_pass: self.proxy_pass@,
            target_host: self.target_host@,
            target_port: self.target_port,
            score: self.score,
        }
    }
}

impl Clone for NginxCandidate {
    fn clone(&self) -> (r: NginxCandidate)
        ensures
            r.deep_view() == self.deep_view(),
    {
        NginxCandidate {
            file: self.file.clone(),
            server_names: text::copy_all(&self.server_names),
            listens: text::copy_all(&self.listens),
            location: self.location.clone(),
            proxy_pass: self.proxy_pass.clone(),
            target_host: self.target_host.clone(),
            target_port: self.target_port,
            score: self.score,
        }
    }
}

// ---------------------------------------------------------------------------
// Upstream groups of all files
// ---------------------------------------------------------------------------

/// The upstream groups of all files, in order.
pub open spec fn all_upstreams(files: Seq<ScanFileView>) -> Seq<(Seq<char>, TargetView)>
    decreases files.len(),
{
    if files.len() == 0 {
        Seq::empty()
    } else {
        all_upstreams(files.drop_last()) + source::upstream_seq(
            text::line_seq(files.last().source),
        )
    }
}

/// The server of an upstream group; where a name is defined more than once,
/// the last definition counts.
pub open spec fn upstream(groups: Seq<(Seq<char>, TargetView)>, name: Seq<char>) -> Option<
    TargetView,
>
    decreases groups.len(),
{
    if groups.len() == 0 {
        None
    } else if groups.last().0 == name {
        Some(groups.last().1)
    } else {
        upstream(groups.drop_last(), name)
    }
}

/// The upstream groups of all files, in order.
pub fn collect_upstreams(files: &Vec<NginxScanFile>) -> (r: Vec<(String, ParsedProxyTarget)>)
    requires
        forall|k: int| 0 <= k < files.len() ==> #[trigger] files[k].source@.len() <= i32::MAX,
    ensures
        r.deep_view() == all_upstreams(files.deep_view()),
{
    let ghost all = files.deep_view();
    let mut r: Vec<(String, ParsedProxyTarget)> = Vec::new();
    let mut i: usize = 0;
    assert(all.take(0) =~= Seq::empty());
    assert(r.deep_view() =~= Seq::empty());
    while i < files.len()
        invariant
            i <= files.len(),
            all == files.deep_view(),
            forall|k: int| 0 <= k < files.len() ==> #[trigger] files[k].source@.len() <= i32::MAX,
            r.deep_view() == all_upstreams(all.take(i as int)),
        decreases files.len() - i,
    {
        let ghost done = r.deep_view();
        proof {
            assert(all.take(i + 1).drop_last() =~= all.take(i as int));
            assert(all[i as int] == files@[i as int].deep_view());
        }
        let mut found = source::scan_upstreams(files[i].source.as_str());
        let ghost more = found.deep_view();
        r.append(&mut found);
        assert(r.deep_view() =~= done + more);
        i = i + 1;
    }
    assert(all.take(files.len() as int) =~= all);
    r
}

fn find_upstream(groups: &Vec<(String, ParsedProxyTarget)>, name: &str) -> (r: Option<
    ParsedProxyTarget,
>)
    ensures
        r.deep_view() == upstream(groups.deep_view(), name@),
{
    let ghost all = groups.deep_view();
    let mut n: usize = groups.len();
    assert(all.take(n as int) =~= all);
    while n > 0
        invariant
            n <= groups.len(),
            all == groups.deep_view(),
            upstream(all, name@) == upstream(all.take(n as int), name@),
        decreases n,
    {
        assert(all.take(n as int).drop_last() =~= all.take(n - 1));
        assert(all[n - 1] == groups@[n - 1].deep_view());
        if text::same(groups[n - 1].0.as_str(), name) {
            return Some(groups[n - 1].1.clone());
        }
        n = n - 1;
    }
    None
}

// ---------------------------------------------------------------------------
// Backends
// ---------------------------------------------------------------------------

/// The backend that a `proxy_pass` value names: by host and port, or by the
/// name of an upstream group.
pub open spec fn proxy_target(
    proxy_pass: Seq<char>,
    groups: Seq<(Seq<char>, TargetView)>,
) -> Option<TargetView> {
    if !text::starts(proxy_pass, "http://"@) {
        None
    } else {
        let authority = text::head(proxy_pass.skip("http://"@.len() as int), '/');
        match source::host_port(authority) {
            Some(target) => Some(target),
            None => upstream(groups, authority),
        }
    }
}

/// The backend that a `proxy_pass` value names.
pub fn parse_proxy_pass_target(
    proxy_pass: &str,
    upstreams: &Vec<(String, ParsedProxyTarget)>,
) -> (r: Option<ParsedProxyTarget>)
    ensures
        r.deep_view() == proxy_target(proxy_pass@, upstreams.deep_view()),
{
    match text::strip_prefix(proxy_pass, "http://") {
        None => None,
        Some(target) => {
            let authority = text::head_of(target, '/');
            match source::parse_host_port(authority) {
                Some(parsed) => Some(parsed),
                None => find_upstream(upstreams, authority),
            }
        },
    }
}

/// A backend that is written as a host and a port is read as these, whatever
/// upstream groups there are.
pub proof fn written_backend_reads_back(
    host: Seq<char>,
    port: u16,
    groups: Seq<(Seq<char>, TargetView)>,
)
    requires
        !host.contains('/'),
        !host.contains('['),
        !host.contains(']'),
    ensures
        proxy_target("http://"@ + host + ":"@ + number::decimal(port as nat), groups) == Some(
            TargetView { host, port },
        ),
{
    let digits = number::decimal(port as nat);
    let value = "http://"@ + host + ":"@ + digits;
    let n = "http://"@.len() as int;
    let authority = host + ":"@ + digits;
    reveal_strlit(":");
    assert(value.take(n) =~= "http://"@);
    assert(value.skip(n) =~= authority);
    number::written_number_is_digits(port as nat);
    assert forall|k: int| 0 <= k < authority.len() implies authority[k] != '/' by {
        if k < host.len() {
            assert(authority[k] == host[k]);
        } else if k > host.len() {
            assert(authority[k] == digits[k - host.len() - 1]);
            assert(number::is_digit(digits[k - host.len() - 1]));
        }
    }
    text::lemma_position_is(authority, '/', authority.len() as int);
    assert(text::head(authority, '/') =~= authority);
    assert forall|k: int| host.len() < k < authority.len() implies authority[k] != ':' by {
        assert(authority[k] == digits[k - host.len() - 1]);
        assert(number::is_digit(digits[k - host.len() - 1]));
    }
    text::lemma_last_position_is(authority, ':', host.len() as int);
    assert(authority.take(host.len() as int) =~= host);
    assert(authority.skip(host.len() as int + 1) =~= digits);
    number::written_number_reads_back(port as nat, 0xffff);
    if host.len() > 0 {
        assert(host.contains(host[0]));
        assert(host.contains(host.last()));
    }
}

// ---------------------------------------------------------------------------
// Candidates
// ---------------------------------------------------------------------------

/// Names as they are written in a configuration.
pub open spec fn name_texts(names: Seq<syntax::ServerNameView>) -> Seq<Seq<char>> {
    names.map_values(|name: syntax::ServerNameView| syntax::server_name_text(name))
}

/// The names that the directives of a server give it.
pub open spec fn server_names(items: Seq<ItemView>) -> Seq<Seq<char>>
    decreases items.len(),
{
    if items.len() == 0 {
        Seq::empty()
    } else {
        server_names(items.drop_last()) + match items.last() {
            ItemView::ServerName(names) => name_texts(names),
            _ => Seq::empty(),
        }
    }
}

/// The addresses that a server listens on.
pub open spec fn listens(items: Seq<ItemView>) -> Seq<Seq<char>>
    decreases items.len(),
{
    if items.len() == 0 {
        Seq::empty()
    } else {
        listens(items.drop_last()) + match items.last() {
            ItemView::Listen(address) => seq![syntax::address_text(address)],
            _ => Seq::empty(),
        }
    }
}

/// The candidates among the directives of a location. `place` holds what
/// stands around them.
pub open spec fn location_candidates(
    items: Seq<ItemView>,
    place: CandidateView,
    groups: Seq<(Seq<char>, TargetView)>,
) -> Seq<CandidateView>
    decreases items.len(),
{
    if items.len() == 0 {
        Seq::empty()
    } else {
        let front = location_candidates(items.drop_last(), place, groups);
        match items.last() {
            ItemView::ProxyPass(value) => match proxy_target(value, groups) {
                Some(target) => front.push(
                    CandidateView {
                        proxy_pass: value,
                        target_host: target.host,
                        target_port: target.port,
                        ..place
                    },
                ),
                None => front,
            },
            _ => front,
        }
    }
}

/// The candidates in the locations among the directives of a server.
pub open spec fn locations_candidates(
    items: Seq<ItemView>,
    place: CandidateView,
    groups: Seq<(Seq<char>, TargetView)>,
) -> Seq<CandidateView>
    decreases items.len(),
{
    if items.len() == 0 {
        Seq::empty()
    } else {
        locations_candidates(items.drop_last(), place, groups) + match items.last() {
            ItemView::Location(pattern, inner) => location_candidates(
                inner,
                CandidateView { location: syntax::location_text(pattern), ..place },
                groups,
            ),
            _ => Seq::empty(),
        }
    }
}

/// The candidates of a server.
pub open spec fn server_candidates(
    items: Seq<ItemView>,
    file: Seq<char>,
    groups: Seq<(Seq<char>, TargetView)>,
) -> Seq<CandidateView> {
    locations_candidates(
        items,
        CandidateView {
            file,
            server_names: server_names(items),
            listens: listens(items),
            location: Seq::empty(),
            proxy_pass: Seq::empty(),
            target_host: Seq::empty(),
            target_port: 0,
            score: 0,
        },
        groups,
    )
}

/// The candidates of all servers among the directives, and in their `http`
/// blocks, in order.
pub open spec fn candidates(
    items: Seq<ItemView>,
    file: Seq<char>,
    groups: Seq<(Seq<char>, TargetView)>,
) -> Seq<CandidateView>
    decreases items,
{
    if items.len() == 0 {
        Seq::empty()
    } else {
        let n = items.len() - 1;
        candidates(items.subrange(0, n), file, groups) + match items[n] {
            ItemView::Http(inner) => candidates(inner, file, groups),
            ItemView::Server(inner) => server_candidates(inner, file, groups),
            _ => Seq::empty(),
        }
    }
}

fn write_names(names: &Vec<NginxName>) -> (r: Vec<String>)
    ensures
        r.deep_view() == name_texts(names.deep_view()),
{
    let ghost all = name_texts(names.deep_view());
    let mut r: Vec<String> = Vec::new();
    let mut i: usize = 0;
    assert(r.deep_view() =~= all.take(0));
    while i < names.len()
        invariant
            i <= names.len(),
            all == name_texts(names.deep_view()),
            r.deep_view() == all.take(i as int),
        decreases names.len() - i,
    {
        let ghost done = r.deep_view();
        assert(all[i as int] == syntax::server_name_text(names@[i as int].deep_view()));
        r.push(syntax::server_name_to_string(&names[i]));
        assert(r.deep_view() =~= done.push(all[i as int]));
        assert(all.take(i + 1) =~= done.push(all[i as int]));
        i = i + 1;
    }
    assert(all.take(names.len() as int) =~= all);
    r
}

fn collect_names(items: &Vec<NginxItem>) -> (r: Vec<String>)
    ensures
        r.deep_view() == server_names(syntax::items_view(items@)),
{
    let ghost all = syntax::items_view(items@);
    let mut r: Vec<String> = Vec::new();
    let mut i: usize = 0;
    assert(all.take(0) =~= Seq::empty());
    assert(r.deep_view() =~= Seq::empty());
    while i < items.len()
        invariant
            i <= items.len(),
            all == syntax::items_view(items@),
            r.deep_view() == server_names(all.take(i as int)),
        decreases items.len() - i,
    {
        let ghost done = r.deep_view();
        assert(all.take(i + 1).drop_last() =~= all.take(i as int));
        assert(all[i as int] == syntax::item_view(items@[i as int]));
        match &items[i] {
            NginxItem::ServerName(names) => {
                let mut more = write_names(names);
                let ghost added = more.deep_view();
                r.append(&mut more);
                assert(r.deep_view() =~= done + added);
            },
            _ => {
                assert(done =~= done + Seq::<Seq<char>>::empty());
            },
        }
        i = i + 1;
    }
    assert(all.take(items.len() as int) =~= all);
    r
}

fn collect_listens(items: &Vec<NginxItem>) -> (r: Vec<String>)
    ensures
        r.deep_view() == listens(syntax::items_view(items@)),
{
    let ghost all = syntax::items_view(items@);
    let mut r: Vec<String> = Vec::new();
    let mut i: usize = 0;
    assert(all.take(0) =~= Seq::empty());
    assert(r.deep_view() =~= Seq::empty());
    while i < items.len()
        invariant
            i <= items.len(),
            all == syntax::items_view(items@),
            r.deep_view() == listens(all.take(i as int)),
        decreases items.len() - i,
    {
        let ghost done = r.deep_view();
        assert(all.take(i + 1).drop_last() =~= all.take(i as int));
        assert(all[i as int] == syntax::item_view(items@[i as int]));
        match &items[i] {
            NginxItem::Listen(address) => {
                r.push(syntax::address_to_string(address));
                assert(r.deep_view() =~= done + seq![syntax::address_text(address.deep_view())]);
            },
            _ => {
                assert(done =~= done + Seq::<Seq<char>>::empty());
            },
        }
        i = i + 1;
    }
    assert(all.take(items.len() as int) =~= all);
    r
}

fn collect_location_candidates(
    items: &Vec<NginxItem>,
    place: &NginxCandidate,
    upstreams: &Vec<(String, ParsedProxyTarget)>,
    candidates: &mut Vec<NginxCandidate>,
)
    ensures
        final(candidates).deep_view() == old(candidates).deep_view() + location_candidates(
            syntax::items_view(items@),
            place.deep_view(),
            upstreams.deep_view(),
        ),
{
    let ghost all = syntax::items_view(items@);
    let ghost before = candidates.deep_view();
    let ghost groups = upstreams.deep_view();
    let mut i: usize = 0;
    assert(all.take(0) =~= Seq::empty());
    assert(candidates.deep_view() =~= before + location_candidates(
        all.take(0),
        place.deep_view(),
        groups,
    ));
    while i < items.len()
        invariant
            i <= items.len(),
            all == syntax::items_view(items@),
            groups == upstreams.deep_view(),
            candidates.deep_view() == before + location_candidates(
                all.take(i as int),
                place.deep_view(),
                groups,
            ),
        decreases items.len() - i,
    {
        let ghost done = candidates.deep_view();
        let ghost front = location_candidates(all.take(i as int), place.deep_view(), groups);
        assert(all.take(i + 1).drop_last() =~= all.take(i as int));
        assert(all[i as int] == syntax::item_view(items@[i as int]));
        match &items[i] {
            NginxItem::ProxyPass(value) => {
                match parse_proxy_pass_target(value.as_str(), upstreams) {
                    Some(target) => {
                        let mut candidate = place.clone();
                        candidate.proxy_pass = value.clone();
                        candidate.target_host = target.host;
                        candidate.target_port = target.port;
                        let ghost new = candidate.deep_view();
                        candidates.push(candidate);
                        assert(candidates.deep_view() =~= done.push(new));
                        assert(done.push(new) =~= before + front.push(new));
                    },
                    None => {},
                }
            },
            _ => {},
        }
        i = i + 1;
    }
    assert(all.take(items.len() as int) =~= all);
}

/// Adds the candidates of a server.
pub fn collect_server_candidates(
    server: &Vec<NginxItem>,
    file: &str,
    upstreams: &Vec<(String, ParsedProxyTarget)>,
    candidates: &mut Vec<NginxCandidate>,
)
    ensures
        final(candidates).deep_view() == old(candidates).deep_view() + server_candidates(
            syntax::items_view(server@),
            file@,
            upstreams.deep_view(),
        ),
{
    let ghost all = syntax::items_view(server@);
    let ghost before = candidates.deep_view();
    let ghost groups = upstreams.deep_view();
    let mut place = NginxCandidate {
        file: file.to_owned(),
        server_names: collect_names(server),
        listens: collect_listens(server),
        location: String::new(),
        proxy_pass: String::new(),
        target_host: String::new(),
        target_port: 0,
        score: 0,
    };
    let ghost around = place.deep_view();
    let mut i: usize = 0;
    assert(all.take(0) =~= Seq::empty());
    assert(candidates.deep_view() =~= before + locations_candidates(all.take(0), around, groups));
    while i < server.len()
        invariant
            i <= server.len(),
            all == syntax::items_view(server@),
            groups == upstreams.deep_view(),
            place.deep_view() == (CandidateView { location: place.location@, ..around }),
            candidates.deep_view() == before + locations_candidates(
                all.take(i as int),
                around,
                groups,
            ),
        decreases server.len() - i,
    {
        let ghost front = locations_candidates(all.take(i as int), around, groups);
        assert(all.take(i + 1).drop_last() =~= all.take(i as int));
        assert(all[i as int] == syntax::item_view(server@[i as int]));
        match &server[i] {
            NginxItem::Location(pattern, inner) => {
                place.location = syntax::location_pattern_to_string(pattern);
                collect_location_candidates(inner, &place, upstreams, candidates);
                let ghost more = location_candidates(
                    syntax::items_view(inner@),
                    place.deep_view(),
                    groups,
                );
                assert(candidates.deep_view() =~= before + (front + more));
            },
            _ => {
                assert(front =~= front + Seq::<CandidateView>::empty());
            },
        }
        i = i + 1;
    }
    assert(all.take(server.len() as int) =~= all);
}

/// Adds the candidates of all servers among the directives, and in their
/// `http` blocks.
pub fn collect_proxy_candidates(
    items: &Vec<NginxItem>,
    file: &str,
    upstreams: &Vec<(String, ParsedProxyTarget)>,
    candidates: &mut Vec<NginxCandidate>,
)
    ensures
        final(candidates).deep_view() == old(candidates).deep_view() + self::candidates(
            syntax::items_view(items@),
            file@,
            upstreams.deep_view(),
        ),
    decreases items,
{
    let ghost all = syntax::items_view(items@);
    let ghost before = candidates.deep_view();
    let ghost groups = upstreams.deep_view();
    let mut i: usize = 0;
    assert(all.take(0) =~= Seq::empty());
    assert(candidates.deep_view() =~= before + self::candidates(all.take(0), file@, groups));
    while i < items.len()
        invariant
            i <= items.len(),
            all == syntax::items_view(items@),
            groups == upstreams.deep_view(),
            candidates.deep_view() == before + self::candidates(all.take(i as int), file@, groups),
        decreases items.len() - i,
    {
        let ghost front = self::candidates(all.take(i as int), file@, groups);
        assert(all.take(i + 1).subrange(0, i as int) =~= all.take(i as int));
        assert(all[i as int] == syntax::item_view(items@[i as int]));
        match &items[i] {
            NginxItem::Http(inner) => {
                assert(decreases_to!(items => items@[i as int]));
                collect_proxy_candidates(inner, file, upstreams, candidates);
                let ghost more = self::candidates(syntax::items_view(inner@), file@, groups);
                assert(candidates.deep_view() =~= before + (front + more));
            },
            NginxItem::Server(inner) => {
                collect_server_candidates(inner, file, upstreams, candidates);
                let ghost more = server_candidates(syntax::items_view(inner@), file@, groups);
                assert(candidates.deep_view() =~= before + (front + more));
            },
            _ => {
                assert(front =~= front + Seq::<CandidateView>::empty());
            },
        }
        i = i + 1;
    }
    assert(all.take(items.len() as int) =~= all);
}

// ---------------------------------------------------------------------------
// Which candidates there are
// ---------------------------------------------------------------------------

/// Of the groups with a name the last one counts, and groups with other names
/// do not matter.
pub proof fn last_group_of_a_name_counts(
    groups: Seq<(Seq<char>, TargetView)>,
    name: Seq<char>,
    target: TargetView,
    other: Seq<char>,
)
    ensures
        upstream(groups.push((name, target)), name) == Some(target),
        other != name ==> upstream(groups.push((name, target)), other) == upstream(groups, other),
        groups.len() == 0 ==> upstream(groups, name) is None,
{
    let more = groups.push((name, target));
    assert(more.drop_last() =~= groups);
    assert(more.last() == (name, target));
}

/// The groups of several files come in the order of the files.
pub proof fn groups_come_in_order(a: Seq<ScanFileView>, b: Seq<ScanFileView>)
    ensures
        all_upstreams(a + b) == all_upstreams(a) + all_upstreams(b),
        a.len() == 0 ==> all_upstreams(a).len() == 0,
        a.len() == 1 ==> all_upstreams(a) == source::upstream_seq(text::line_seq(a[0].source)),
    decreases b.len(),
{
    reveal_with_fuel(all_upstreams, 2);
    if a.len() == 1 {
        assert(a.drop_last() =~= Seq::empty());
        let own = source::upstream_seq(text::line_seq(a[0].source));
        assert(Seq::<(Seq<char>, TargetView)>::empty() + own =~= own);
    }
    if b.len() == 0 {
        assert(a + b =~= a);
        assert(all_upstreams(a) + all_upstreams(b) =~= all_upstreams(a));
    } else {
        groups_come_in_order(a, b.drop_last());
        assert((a + b).drop_last() =~= a + b.drop_last());
        assert((a + b).last() == b.last());
        assert(all_upstreams(a + b) =~= all_upstreams(a) + all_upstreams(b));
    }
}

/// Requests that are passed to a host and a port go there, whatever path follows
/// them; those that are passed to the name of a group go to the group; and only
/// what begins with `http://` is looked at.
pub proof fn requests_go_where_they_are_passed(
    host: Seq<char>,
    port: u16,
    path: Seq<char>,
    name: Seq<char>,
    groups: Seq<(Seq<char>, TargetView)>,
)
    requires
        !host.contains('/'),
        !host.contains('['),
        !host.contains(']'),
        path.len() > 0 ==> path[0] == '/',
        !name.contains('/'),
        !name.contains(':'),
    ensures
        proxy_target("http://"@ + host + ":"@ + number::decimal(port as nat) + path, groups)
            == Some(TargetView { host, port }),
        proxy_target("http://"@ + name + path, groups) == upstream(groups, name),
        !text::starts(name, "http://"@) ==> proxy_target(name, groups) is None,
        proxy_target("https://"@ + name, groups) is None,
{
    reveal_strlit(":");
    reveal_strlit("http://");
    reveal_strlit("https://");
    let digits = number::decimal(port as nat);
    let authority = host + ":"@ + digits;
    number::written_number_is_digits(port as nat);
    assert(!authority.contains('/')) by {
        assert forall|k: int| 0 <= k < authority.len() implies authority[k] != '/' by {
            if k < host.len() {
                assert(host.contains(host[k]));
            } else if k > host.len() {
                assert(authority[k] == digits[k - host.len() - 1]);
                assert(number::is_digit(digits[k - host.len() - 1]));
            }
        }
    }
    lemma_authority(authority, path);
    assert("http://"@ + host + ":"@ + digits + path =~= "http://"@ + authority + path);
    if host.len() > 0 {
        assert(host.contains(host[0]));
        assert(host.contains(host[host.len() - 1]));
    }
    source::written_authority_reads_back(Seq::empty(), host, Seq::empty(), port);
    lemma_authority(name, path);
    source::authority_needs_a_port(name, Seq::empty());
    let other = "https://"@ + name;
    if text::starts(other, "http://"@) {
        assert(other.take(7)[4] == other[4]);
    }
}

proof fn lemma_authority(authority: Seq<char>, path: Seq<char>)
    requires
        !authority.contains('/'),
        path.len() > 0 ==> path[0] == '/',
    ensures
        ({
            let value = "http://"@ + authority + path;
            &&& text::starts(value, "http://"@)
            &&& text::head(value.skip("http://"@.len() as int), '/') == authority
        }),
{
    let value = "http://"@ + authority + path;
    let n = "http://"@.len() as int;
    assert(value.take(n) =~= "http://"@);
    assert(value.skip(n) =~= authority + path);
    if path.len() == 0 {
        assert(authority + path =~= authority);
        text::cut_is_at_the_character(authority, '/', Seq::empty());
    } else {
        text::cut_is_at_the_character(authority, '/', path.drop_first());
        assert(authority + path =~= authority.push('/') + path.drop_first());
    }
}

/// The names of a server and the addresses that it listens on come in the order
/// in which they are written, all of them.
pub proof fn names_and_listens_come_in_order(a: Seq<ItemView>, b: Seq<ItemView>)
    ensures
        server_names(a + b) == server_names(a) + server_names(b),
        listens(a + b) == listens(a) + listens(b),
        a.len() == 0 ==> server_names(a).len() == 0 && listens(a).len() == 0,
        a.len() == 1 ==> {
            &&& a[0] matches ItemView::ServerName(names) ==> {
                &&& server_names(a).len() == names.len()
                &&& forall|k: int|
                    0 <= k < names.len() ==> #[trigger] server_names(a)[k]
                        == syntax::server_name_text(names[k])
            }
            &&& !(a[0] is ServerName) ==> server_names(a).len() == 0
            &&& a[0] matches ItemView::Listen(address) ==> listens(a) == seq![
                syntax::address_text(address),
            ]
            &&& !(a[0] is Listen) ==> listens(a).len() == 0
        },
    decreases b.len(),
{
    reveal_with_fuel(server_names, 2);
    reveal_with_fuel(listens, 2);
    if a.len() == 1 {
        assert(a.drop_last() =~= Seq::empty());
        if let ItemView::ServerName(names) = a[0] {
            assert(server_names(a) =~= name_texts(names));
        }
        if let ItemView::Listen(address) = a[0] {
            assert(listens(a) =~= seq![syntax::address_text(address)]);
        }
    }
    if b.len() == 0 {
        assert(a + b =~= a);
        assert(server_names(a) + server_names(b) =~= server_names(a));
        assert(listens(a) + listens(b) =~= listens(a));
    } else {
        names_and_listens_come_in_order(a, b.drop_last());
        assert((a + b).drop_last() =~= a + b.drop_last());
        assert((a + b).last() == b.last());
        assert(server_names(a + b) =~= server_names(a) + server_names(b));
        assert(listens(a + b) =~= listens(a) + listens(b));
    }
}

/// What is passed on in a location is found directive by directive, each with
/// the place where it stands.
pub proof fn locations_are_searched_in_order(
    a: Seq<ItemView>,
    b: Seq<ItemView>,
    place: CandidateView,
    groups: Seq<(Seq<char>, TargetView)>,
)
    ensures
        location_candidates(a + b, place, groups) == location_candidates(a, place, groups)
            + location_candidates(b, place, groups),
        a.len() == 0 ==> location_candidates(a, place, groups).len() == 0,
        a.len() == 1 && !(a[0] is ProxyPass) ==> location_candidates(a, place, groups).len() == 0,
        a.len() == 1 ==> (a[0] matches ItemView::ProxyPass(value) ==> {
            &&& proxy_target(value, groups) is None ==> location_candidates(
                a,
                place,
                groups,
            ).len() == 0
            &&& proxy_target(value, groups) matches Some(target) ==> location_candidates(
                a,
                place,
                groups,
            ) == seq![
                CandidateView {
                    file: place.file,
                    server_names: place.server_names,
                    listens: place.listens,
                    location: place.location,
                    proxy_pass: value,
                    target_host: target.host,
                    target_port: target.port,
                    score: place.score,
                },
            ]
        }),
    decreases b.len(),
{
    reveal_with_fuel(location_candidates, 2);
    if a.len() == 1 {
        assert(a.drop_last() =~= Seq::empty());
    }
    if b.len() == 0 {
        assert(a + b =~= a);
        assert(location_candidates(a, place, groups) + location_candidates(b, place, groups)
            =~= location_candidates(a, place, groups));
    } else {
        locations_are_searched_in_order(a, b.drop_last(), place, groups);
        assert((a + b).drop_last() =~= a + b.drop_last());
        assert((a + b).last() == b.last());
        assert(location_candidates(a + b, place, groups) =~= location_candidates(a, place, groups)
            + location_candidates(b, place, groups));
    }
}

proof fn lemma_locations_in_order(
    a: Seq<ItemView>,
    b: Seq<ItemView>,
    place: CandidateView,
    groups: Seq<(Seq<char>, TargetView)>,
)
    ensures
        locations_candidates(a + b, place, groups) == locations_candidates(a, place, groups)
            + locations_candidates(b, place, groups),
        a.len() == 1 ==> locations_candidates(a, place, groups) == match a[0] {
            ItemView::Location(pattern, inner) => location_candidates(
                inner,
                CandidateView { location: syntax::location_text(pattern), ..place },
                groups,
            ),
            _ => Seq::empty(),
        },
    decreases b.len(),
{
    reveal_with_fuel(locations_candidates, 2);
    if a.len() == 1 {
        assert(a.drop_last() =~= Seq::empty());
        assert(locations_candidates(a, place, groups) =~= match a[0] {
            ItemView::Location(pattern, inner) => location_candidates(
                inner,
                CandidateView { location: syntax::location_text(pattern), ..place },
                groups,
            ),
            _ => Seq::empty(),
        });
    }
    if b.len() == 0 {
        assert(a + b =~= a);
        assert(locations_candidates(a, place, groups) + locations_candidates(b, place, groups)
            =~= locations_candidates(a, place, groups));
    } else {
        lemma_locations_in_order(a, b.drop_last(), place, groups);
        assert((a + b).drop_last() =~= a + b.drop_last());
        assert((a + b).last() == b.last());
        assert(locations_candidates(a + b, place, groups) =~= locations_candidates(
            a,
            place,
            groups,
        ) + locations_candidates(b, place, groups));
    }
}

/// A server's candidates are those of its locations, in order. Each carries the
/// file, all names and addresses of the server, wherever in it they stand, and
/// the location.
pub proof fn server_is_searched_by_location(
    before: Seq<ItemView>,
    pattern: syntax::PatternView,
    inner: Seq<ItemView>,
    behind: Seq<ItemView>,
    file: Seq<char>,
    groups: Seq<(Seq<char>, TargetView)>,
)
    ensures
        ({
            let items = before + seq![ItemView::Location(pattern, inner)] + behind;
            let place = CandidateView {
                file,
                server_names: server_names(items),
                listens: listens(items),
                location: syntax::location_text(pattern),
                proxy_pass: Seq::empty(),
                target_host: Seq::empty(),
                target_port: 0,
                score: 0,
            };
            exists|front: Seq<CandidateView>, more: Seq<CandidateView>|
                server_candidates(items, file, groups) == #[trigger] (front + location_candidates(
                    inner,
                    place,
                    groups,
                ) + more)
        }),
{
    let one = seq![ItemView::Location(pattern, inner)];
    let items = before + one + behind;
    let empty_place = CandidateView {
        file,
        server_names: server_names(items),
        listens: listens(items),
        location: Seq::empty(),
        proxy_pass: Seq::empty(),
        target_host: Seq::empty(),
        target_port: 0,
        score: 0,
    };
    lemma_locations_in_order(before + one, behind, empty_place, groups);
    lemma_locations_in_order(before, one, empty_place, groups);
    lemma_locations_in_order(one, behind, empty_place, groups);
    let front = locations_candidates(before, empty_place, groups);
    let more = locations_candidates(behind, empty_place, groups);
    let place = CandidateView { location: syntax::location_text(pattern), ..empty_place };
    assert(server_candidates(items, file, groups) == front + location_candidates(
        inner,
        place,
        groups,
    ) + more);
}

/// Every directive in a location of a server that passes requests on to a known
/// backend gives a candidate, with the file, the names and addresses of the
/// server, the location, and the backend.
pub proof fn every_backend_is_a_candidate(
    items: Seq<ItemView>,
    file: Seq<char>,
    groups: Seq<(Seq<char>, TargetView)>,
    i: int,
    j: int,
    target: TargetView,
)
    requires
        0 <= i < items.len(),
        items[i] matches ItemView::Location(_, inner) && 0 <= j < inner.len() && (
        inner[j] matches ItemView::ProxyPass(value) && proxy_target(value, groups) == Some(target)),
    ensures
        items[i] matches ItemView::Location(pattern, inner) && (
        inner[j] matches ItemView::ProxyPass(value) && server_candidates(
            items,
            file,
            groups,
        ).contains(
            CandidateView {
                file,
                server_names: server_names(items),
                listens: listens(items),
                location: syntax::location_text(pattern),
                proxy_pass: value,
                target_host: target.host,
                target_port: target.port,
                score: 0,
            },
        )),
{
    if let ItemView::Location(pattern, inner) = items[i] {
        if let ItemView::ProxyPass(value) = inner[j] {
            let before = items.take(i);
            let behind = items.skip(i + 1);
            assert(items =~= before + seq![ItemView::Location(pattern, inner)] + behind);
            server_is_searched_by_location(before, pattern, inner, behind, file, groups);
            let place = CandidateView {
                file,
                server_names: server_names(items),
                listens: listens(items),
                location: syntax::location_text(pattern),
                proxy_pass: Seq::empty(),
                target_host: Seq::empty(),
                target_port: 0,
                score: 0,
            };
            let found = location_candidates(inner, place, groups);
            let (front, more) = choose|front: Seq<CandidateView>, more: Seq<CandidateView>|
                server_candidates(items, file, groups) == #[trigger] (front + found + more);
            let a = inner.take(j);
            let one = seq![inner[j]];
            let b = inner.skip(j + 1);
            assert(inner =~= a + one + b);
            locations_are_searched_in_order(a + one, b, place, groups);
            locations_are_searched_in_order(a, one, place, groups);
            locations_are_searched_in_order(one, b, place, groups);
            let candidate = CandidateView {
                proxy_pass: value,
                target_host: target.host,
                target_port: target.port,
                ..place
            };
            let n = location_candidates(a, place, groups).len() as int;
            assert(found[n] == candidate);
            assert((front + found + more)[front.len() + n] == candidate);
        }
    }
}

/// Servers are found at the top of a source and inside of `http`, in the order
/// in which they stand; nothing else gives candidates.
pub proof fn sources_are_searched_in_order(
    a: Seq<ItemView>,
    b: Seq<ItemView>,
    file: Seq<char>,
    groups: Seq<(Seq<char>, TargetView)>,
)
    ensures
        candidates(a + b, file, groups) == candidates(a, file, groups) + candidates(
            b,
            file,
            groups,
        ),
        a.len() == 0 ==> candidates(a, file, groups).len() == 0,
        a.len() == 1 ==> {
            &&& a[0] matches ItemView::Http(inner) ==> candidates(a, file, groups) == candidates(
                inner,
                file,
                groups,
            )
            &&& a[0] matches ItemView::Server(inner) ==> candidates(a, file, groups)
                == server_candidates(inner, file, groups)
            &&& !(a[0] is Http) && !(a[0] is Server) ==> candidates(a, file, groups).len() == 0
        },
    decreases b.len(),
{
    if a.len() == 1 {
        assert(a.subrange(0, 0) =~= Seq::empty());
        assert(candidates(a.subrange(0, 0), file, groups).len() == 0);
        assert(candidates(a, file, groups) =~= match a[0] {
            ItemView::Http(inner) => candidates(inner, file, groups),
            ItemView::Server(inner) => server_candidates(inner, file, groups),
            _ => Seq::empty(),
        });
    }
    if b.len() == 0 {
        assert(a + b =~= a);
        assert(candidates(b, file, groups).len() == 0);
        assert(candidates(a, file, groups) + candidates(b, file, groups) =~= candidates(
            a,
            file,
            groups,
        ));
    } else {
        let n = b.len() - 1;
        let front = b.subrange(0, n);
        sources_are_searched_in_order(a, front, file, groups);
        assert((a + b).subrange(0, a.len() + n) =~= a + front);
        assert((a + b)[a.len() + n] == b[n]);
        let last = match b[n] {
            ItemView::Http(inner) => candidates(inner, file, groups),
            ItemView::Server(inner) => server_candidates(inner, file, groups),
            _ => Seq::empty(),
        };
        assert(candidates(a + b, file, groups) == candidates(a + front, file, groups) + last);
        assert(candidates(b, file, groups) == candidates(front, file, groups) + last);
        assert(candidates(a, file, groups) + candidates(front, file, groups) + last
            =~= candidates(a, file, groups) + (candidates(front, file, groups) + last));
    }
}

} // verus!
