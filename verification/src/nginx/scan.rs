//! The search for the backend of an application, and the configuration that is
//! proposed for it.
use vstd::prelude::*;

use crate::config;
use crate::config::{FileConfig, FileView, HealthConfig, HealthView};
use crate::failure;
use crate::failure::{ErrorKind, Failure, FailureView};
use crate::nginx::candidates;
use crate::nginx::candidates::{CandidateView, NginxCandidate, NginxScanFile, ScanFileView};
use crate::nginx::source;
use crate::nginx::source::TargetView;
use crate::nginx::syntax;
use crate::number;
use crate::order;
use crate::slots;
use crate::slots::SlotView;
use crate::text;

verus! {

/// A configuration that is proposed, and what the user should know of it.
#[derive(Debug)]
pub struct NginxScanProposal {
    pub config: FileConfig,
    pub notes: Vec<String>,
}

/// What an [`NginxScanProposal`] holds.
pub struct ProposalView {
    pub config: FileView,
    pub notes: Seq<Seq<char>>,
}

impl DeepView for NginxScanProposal {
    type V = ProposalView;

    open spec fn deep_view(&self) -> ProposalView {
        ProposalView { config: self.config.deep_view(), notes: self.notes.deep_view() }
    }
}

// ---------------------------------------------------------------------------
// Ranking
// ---------------------------------------------------------------------------

/// Whether a host is this machine.
pub open spec fn loopback(host: Seq<char>) -> bool {
    host == "127.0.0.1"@ || host == "localhost"@ || host == "::1"@
}

/// Whether the user asked for one of the names of the server.
pub open spec fn hinted(candidate: CandidateView, hint: Option<Seq<char>>) -> bool {
    hint matches Some(name) && candidate.server_names.contains(name)
}

/// Whether one of the addresses of the server is for encrypted traffic.
pub open spec fn encrypted(listens: Seq<Seq<char>>) -> bool {
    exists|i: int| 0 <= i < listens.len() && #[trigger] text::contains_text(listens[i], "443"@)
}

/// How well a candidate fits.
pub open spec fn score(candidate: CandidateView, hint: Option<Seq<char>>) -> int {
    (if candidate.location == "/"@ {
        50int
    } else {
        0
    }) + (if loopback(candidate.target_host) {
        25int
    } else {
        0
    }) + (if encrypted(candidate.listens) {
        10int
    } else {
        0
    }) + (if hinted(candidate, hint) {
        100int
    } else {
        0
    })
}

/// Candidates with their scores.
pub open spec fn scored(list: Seq<CandidateView>, hint: Option<Seq<char>>) -> Seq<CandidateView> {
    list.map_values(
        |c: CandidateView| CandidateView { score: score(c, hint) as i32, ..c },
    )
}

/// The order of candidates: one with a lower score comes later.
pub open spec fn rank_after() -> spec_fn(CandidateView, CandidateView) -> bool {
    |y: CandidateView, x: CandidateView| y.score < x.score
}

/// Candidates with their scores, the best first; among equals the one that was
/// found first comes first.
pub open spec fn ranked(list: Seq<CandidateView>, hint: Option<Seq<char>>) -> Seq<CandidateView> {
    order::sorted(scored(list, hint), rank_after())
}

/// Whether a host is this machine.
pub fn is_loopback_host(host: &str) -> (r: bool)
    ensures
        r == loopback(host@),
{
    text::same(host, "127.0.0.1") || text::same(host, "localhost") || text::same(host, "::1")
}

fn is_encrypted(listens: &Vec<String>) -> (r: bool)
    ensures
        r == encrypted(listens.deep_view()),
{
    let mut i: usize = 0;
    while i < listens.len()
        invariant
            i <= listens.len(),
            forall|k: int|
                0 <= k < i ==> !(#[trigger] text::contains_text(
                    listens.deep_view()[k],
                    "443"@,
                )),
        decreases listens.len() - i,
    {
        assert(listens.deep_view()[i as int] == listens@[i as int]@);
        if text::contains(listens[i].as_str(), "443") {
            assert(text::contains_text(listens.deep_view()[i as int], "443"@));
            return true;
        }
        i = i + 1;
    }
    false
}

/// How well a candidate fits.
pub fn score_nginx_candidate(candidate: &NginxCandidate, server_name_hint: Option<&str>) -> (r: i32)
    ensures
        r == score(candidate.deep_view(), server_name_hint.deep_view()),
        0 <= r <= 185,
{
    let mut total: i32 = 0;
    if text::same(candidate.location.as_str(), "/") {
        total = total + 50;
    }
    if is_loopback_host(candidate.target_host.as_str()) {
        total = total + 25;
    }
    if is_encrypted(&candidate.listens) {
        total = total + 10;
    }
    if let Some(hint) = server_name_hint {
        if text::is_one_of(hint, &candidate.server_names) {
            total = total + 100;
        }
    }
    total
}

/// Candidates with their scores, the best first.
pub fn rank_candidates(list: Vec<NginxCandidate>, server_name_hint: Option<&str>) -> (r: Vec<
    NginxCandidate,
>)
    ensures
        r.deep_view() == ranked(list.deep_view(), server_name_hint.deep_view()),
{
    let ghost hint = server_name_hint.deep_view();
    let ghost all = scored(list.deep_view(), hint);
    let ghost after = rank_after();
    let mut r: Vec<NginxCandidate> = Vec::new();
    let mut i: usize = 0;
    assert(all.take(0) =~= Seq::empty());
    assert(r.deep_view() =~= Seq::empty());
    while i < list.len()
        invariant
            i <= list.len(),
            hint == server_name_hint.deep_view(),
            all == scored(list.deep_view(), hint),
            after == rank_after(),
            r.deep_view() == order::sorted(all.take(i as int), after),
        decreases list.len() - i,
    {
        let mut x = list[i].clone();
        x.score = score_nginx_candidate(&list[i], server_name_hint);
        let ghost new = x.deep_view();
        let ghost s = r.deep_view();
        proof {
            assert(list.deep_view()[i as int] == list@[i as int].deep_view());
            assert(all[i as int] == new);
        }
        let mut n: usize = r.len();
        while n > 0 && r[n - 1].score < x.score
            invariant
                n <= r.len(),
                s == r.deep_view(),
                new == x.deep_view(),
                after == rank_after(),
                forall|k: int| n <= k < s.len() ==> after(s[k], new),
            decreases n,
        {
            assert(s[n - 1] == r@[n - 1].deep_view());
            n = n - 1;
        }
        proof {
            assert(n > 0 ==> s[n - 1] == r@[n - 1].deep_view());
            order::lemma_placed(s, new, after, n as int);
            assert(all.take(i + 1).drop_last() =~= all.take(i as int));
        }
        r.insert(n, x);
        assert(r.deep_view() =~= s.insert(n as int, new));
        i = i + 1;
    }
    assert(all.take(list.len() as int) =~= all);
    r
}

// ---------------------------------------------------------------------------
// The proposal
// ---------------------------------------------------------------------------

/// A port next to another one.
pub open spec fn next_port(port: u16) -> u16 {
    if port == 65535 {
        65534
    } else if port == 65534 {
        65533
    } else {
        (port + 1) as u16
    }
}

/// A port next to another one.
pub fn next_available_port(port: u16) -> (r: u16)
    ensures
        r == next_port(port),
{
    if port == 65535 {
        65534
    } else if port == 65534 {
        65533
    } else {
        port + 1
    }
}

/// The configuration that is proposed for a backend.
pub open spec fn proposed_file(candidate: CandidateView) -> FileView {
    let first = next_port(candidate.target_port);
    config::starter_file(
        first,
        next_port(first),
        Seq::empty(),
        HealthView::Tcp {
            host: candidate.target_host,
            timeout_seconds: 120,
            interval_millis: 1000,
        },
        candidate.target_host,
    )
}

impl FileConfig {
    /// The configuration that is proposed for a backend.
    pub fn from_nginx_candidate(candidate: &NginxCandidate) -> (r: FileConfig)
        ensures
            r.deep_view() == proposed_file(candidate.deep_view()),
    {
        let first_port = next_available_port(candidate.target_port);
        let second_port = next_available_port(first_port);
        let env_files: Vec<String> = Vec::new();
        assert(env_files.deep_view() =~= Seq::empty());
        config::make_starter_file(
            first_port,
            second_port,
            env_files,
            HealthConfig::Tcp {
                host: candidate.target_host.clone(),
                timeout_seconds: 120,
                interval_millis: 1000,
            },
            candidate.target_host.clone(),
        )
    }
}

/// The names of a server in one text.
pub open spec fn names_text(names: Seq<Seq<char>>) -> Seq<char> {
    if names.len() == 0 {
        "<none>"@
    } else {
        text::joined(names, ","@)
    }
}

/// Where a candidate stands, behind the words `front`.
pub open spec fn place_text(front: Seq<char>, candidate: CandidateView) -> Seq<char> {
    front + candidate.file + " server_name="@ + names_text(candidate.server_names) + " location="@
        + candidate.location + " proxy_pass="@ + candidate.proxy_pass
}

/// The words for a candidate in the ranking.
pub open spec fn rank_text(candidate: CandidateView) -> Seq<char> {
    place_text("score="@ + number::signed_decimal(candidate.score as int) + " file="@, candidate)
}

/// What the user should know of a proposal: which candidate was selected, what
/// to change in the configuration of Nginx, and, where there was a choice, the
/// five best candidates.
pub open spec fn notes(list: Seq<CandidateView>) -> Seq<Seq<char>> {
    let selected = list[0];
    let front = seq![
        place_text("selected "@, selected),
        "replace the selected proxy_pass with: include /etc/nginx/doubleshot/proxy-pass.inc;"@,
        "detected existing backend "@ + selected.target_host + ":"@ + number::decimal(
            selected.target_port as nat,
        ) + "; generated first deploy slot avoids that occupied port"@,
    ];
    if list.len() > 1 {
        let shown = if list.len() < 5 {
            list
        } else {
            list.take(5)
        };
        front.push("ranked nginx candidates:"@) + shown.map_values(
            |c: CandidateView| rank_text(c),
        )
    } else {
        front
    }
}

/// What is proposed where these candidates were found from the file `root`.
pub open spec fn proposal(
    root: Seq<char>,
    list: Seq<CandidateView>,
    hint: Option<Seq<char>>,
) -> Result<ProposalView, FailureView> {
    if list.len() == 0 {
        Err(
            FailureView {
                kind: ErrorKind::NotFound,
                message: "no proxy_pass candidates found from "@ + root,
            },
        )
    } else {
        let order = ranked(list, hint);
        Ok(ProposalView { config: proposed_file(order[0]), notes: notes(order) })
    }
}

fn write_names(names: &Vec<String>) -> (r: String)
    ensures
        r@ == names_text(names.deep_view()),
{
    assert(names.deep_view().len() == names.len());
    if names.len() == 0 {
        "<none>".to_owned()
    } else {
        text::join(names, ",")
    }
}

fn write_place(front: &str, candidate: &NginxCandidate) -> (r: String)
    ensures
        r@ == place_text(front@, candidate.deep_view()),
{
    let mut r = text::concat(front, candidate.file.as_str());
    let names = write_names(&candidate.server_names);
    r.append(" server_name=");
    r.append(names.as_str());
    r.append(" location=");
    r.append(candidate.location.as_str());
    r.append(" proxy_pass=");
    r.append(candidate.proxy_pass.as_str());
    r
}

fn write_rank(candidate: &NginxCandidate) -> (r: String)
    ensures
        r@ == rank_text(candidate.deep_view()),
{
    let digits = number::write_signed(candidate.score);
    let mut front = text::concat("score=", digits.as_str());
    front.append(" file=");
    write_place(front.as_str(), candidate)
}

fn write_notes(list: &Vec<NginxCandidate>) -> (r: Vec<String>)
    requires
        list.len() > 0,
    ensures
        r.deep_view() == notes(list.deep_view()),
{
    let ghost all = list.deep_view();
    let selected = &list[0];
    assert(all[0] == selected.deep_view());
    let mut r: Vec<String> = Vec::new();
    r.push(write_place("selected ", selected));
    r.push(
        "replace the selected proxy_pass with: include /etc/nginx/doubleshot/proxy-pass.inc;".to_owned(),
    );
    let mut detected = text::concat("detected existing backend ", selected.target_host.as_str());
    let port = number::write_number(selected.target_port as u64);
    detected.append(":");
    detected.append(port.as_str());
    detected.append("; generated first deploy slot avoids that occupied port");
    r.push(detected);
    if list.len() > 1 {
        r.push("ranked nginx candidates:".to_owned());
        let ghost front = r.deep_view();
        let shown: usize = if list.len() < 5 {
            list.len()
        } else {
            5
        };
        let ghost lines = all.take(shown as int).map_values(|c: CandidateView| rank_text(c));
        let mut i: usize = 0;
        assert(r.deep_view() =~= front + lines.take(0));
        while i < shown
            invariant
                i <= shown <= list.len(),
                all == list.deep_view(),
                lines == all.take(shown as int).map_values(|c: CandidateView| rank_text(c)),
                r.deep_view() == front + lines.take(i as int),
            decreases shown - i,
        {
            let ghost done = r.deep_view();
            assert(all[i as int] == list@[i as int].deep_view());
            r.push(write_rank(&list[i]));
            assert(r.deep_view() =~= done.push(lines[i as int]));
            assert(front + lines.take(i + 1) =~= done.push(lines[i as int]));
            i = i + 1;
        }
        assert(lines.take(shown as int) =~= lines);
        assert(list.len() < 5 ==> all.take(shown as int) =~= all);
        assert(r.deep_view() =~= notes(all));
    } else {
        assert(r.deep_view() =~= notes(all));
    }
    r
}

/// What is proposed where these candidates were found from the file `root`.
pub fn propose(root: &str, list: Vec<NginxCandidate>, server_name_hint: Option<&str>) -> (r: Result<
    NginxScanProposal,
    Failure,
>)
    ensures
        failure::outcome(r) == proposal(root@, list.deep_view(), server_name_hint.deep_view()),
{
    let ghost all = list.deep_view();
    let ghost hint = server_name_hint.deep_view();
    assert(all.len() == list.len());
    if list.len() == 0 {
        return Err(
            Failure::new(
                ErrorKind::NotFound,
                text::concat("no proxy_pass candidates found from ", root),
            ),
        );
    }
    let ranking = rank_candidates(list, server_name_hint);
    proof {
        lemma_ranking_len(all, hint);
        assert(ranking.deep_view().len() == ranking.len());
        assert(ranking.deep_view()[0] == ranking@[0].deep_view());
    }
    let config = FileConfig::from_nginx_candidate(&ranking[0]);
    let notes = write_notes(&ranking);
    Ok(NginxScanProposal { config, notes })
}

proof fn lemma_ranking_len(list: Seq<CandidateView>, hint: Option<Seq<char>>)
    ensures
        ranked(list, hint).len() == list.len(),
{
    order::sorting_keeps_the_items(scored(list, hint), rank_after());
}

// ---------------------------------------------------------------------------
// The search
// ---------------------------------------------------------------------------

/// Whether the search can go through a file.
pub open spec fn scannable(file: ScanFileView) -> bool {
    file.source.len() <= i32::MAX && syntax::parser_takes(source::sanitized(file.source))
}

/// The candidates in all files, or the failure of the first file that is not
/// understood.
pub open spec fn found(files: Seq<ScanFileView>, groups: Seq<(Seq<char>, TargetView)>) -> Result<
    Seq<CandidateView>,
    FailureView,
>
    decreases files.len(),
{
    if files.len() == 0 {
        Ok(Seq::empty())
    } else {
        match found(files.drop_last(), groups) {
            Err(failure) => Err(failure),
            Ok(front) => match syntax::parsed(source::sanitized(files.last().source)) {
                Ok(items) => Ok(front + candidates::candidates(items, files.last().path, groups)),
                Err(words) => Err(
                    FailureView {
                        kind: ErrorKind::InvalidData,
                        message: "failed to parse "@ + files.last().path + ": "@ + words,
                    },
                ),
            },
        }
    }
}

/// What is proposed for the configuration in `files`, which was read from the
/// file `root` on.
pub open spec fn scanned(
    root: Seq<char>,
    files: Seq<ScanFileView>,
    hint: Option<Seq<char>>,
) -> Result<ProposalView, FailureView> {
    match found(files, candidates::all_upstreams(files)) {
        Err(failure) => Err(failure),
        Ok(list) => proposal(root, list, hint),
    }
}

/// Whether the search can go through all files.
pub fn can_scan(files: &Vec<NginxScanFile>) -> (r: bool)
    ensures
        r == forall|k: int| 0 <= k < files.len() ==> #[trigger] scannable(files[k].deep_view()),
{
    let mut i: usize = 0;
    while i < files.len()
        invariant
            i <= files.len(),
            forall|k: int| 0 <= k < i ==> #[trigger] scannable(files[k].deep_view()),
        decreases files.len() - i,
    {
        let text = files[i].source.as_str();
        if text::chars_of(text).len() > i32::MAX as usize {
            assert(!scannable(files[i as int].deep_view()));
            return false;
        }
        let sanitized = source::sanitize_nginx_source(text);
        if !syntax::can_parse(sanitized.as_str()) {
            assert(!scannable(files[i as int].deep_view()));
            return false;
        }
        i = i + 1;
    }
    true
}

/// Whether the search comes to the file at place `k` and cannot go through it.
pub open spec fn stops_at(
    files: Seq<ScanFileView>,
    groups: Seq<(Seq<char>, TargetView)>,
    k: int,
) -> bool {
    &&& 0 <= k < files.len()
    &&& !scannable(files[k])
    &&& found(files.take(k), groups) is Ok
}

/// Whether a file is too long to be searched.
pub open spec fn too_long(file: ScanFileView) -> bool {
    file.source.len() > i32::MAX
}

fn find_too_long(files: &Vec<NginxScanFile>) -> (r: bool)
    ensures
        r == exists|k: int| 0 <= k < files.len() && #[trigger] too_long(files.deep_view()[k]),
{
    let mut i: usize = 0;
    while i < files.len()
        invariant
            i <= files.len(),
            forall|k: int| 0 <= k < i ==> !#[trigger] too_long(files.deep_view()[k]),
        decreases files.len() - i,
    {
        assert(files.deep_view()[i as int] == files@[i as int].deep_view());
        if text::chars_of(files[i].source.as_str()).len() > i32::MAX as usize {
            assert(too_long(files.deep_view()[i as int]));
            return true;
        }
        i = i + 1;
    }
    false
}

/// What is proposed for the configuration in `files`, which was read from the
/// file `root` on, or `None` where a file is too long, or where the search comes
/// to a file that it cannot go through.
pub fn try_scan(root: &str, files: &Vec<NginxScanFile>, server_name_hint: Option<&str>) -> (r: Option<
    Result<NginxScanProposal, Failure>,
>)
    ensures
        r is None <==> {
            ||| exists|k: int| 0 <= k < files.len() && #[trigger] too_long(files.deep_view()[k])
            ||| exists|k: int| #[trigger]
                stops_at(files.deep_view(), candidates::all_upstreams(files.deep_view()), k)
        },
        r matches Some(result) ==> failure::outcome(result) == scanned(
            root@,
            files.deep_view(),
            server_name_hint.deep_view(),
        ),
{
    let ghost all = files.deep_view();
    if find_too_long(files) {
        return None;
    }
    assert forall|k: int| 0 <= k < files.len() implies #[trigger] files[k].source@.len()
        <= i32::MAX by {
        assert(!too_long(all[k]));
        assert(all[k] == files@[k].deep_view());
    }
    let upstreams = candidates::collect_upstreams(files);
    let ghost groups = upstreams.deep_view();
    let mut list: Vec<NginxCandidate> = Vec::new();
    let mut i: usize = 0;
    proof {
        assert(all.take(0) =~= Seq::empty());
        assert(list.deep_view() =~= Seq::empty());
    }
    while i < files.len()
        invariant
            i <= files.len(),
            all == files.deep_view(),
            groups == upstreams.deep_view(),
            groups == candidates::all_upstreams(all),
            forall|k: int| 0 <= k < files.len() ==> #[trigger] files[k].source@.len() <= i32::MAX,
            forall|k: int| 0 <= k < i ==> #[trigger] scannable(all[k]),
            forall|k: int| 0 <= k < files.len() ==> !#[trigger] too_long(all[k]),
            found(all.take(i as int), groups) == Ok::<Seq<CandidateView>, FailureView>(
                list.deep_view(),
            ),
        decreases files.len() - i,
    {
        let file = &files[i];
        proof {
            assert(files[i as int].source@.len() <= i32::MAX);
            assert(all[i as int] == file.deep_view());
            assert(all.take(i + 1).drop_last() =~= all.take(i as int));
            assert(all.take(i + 1).last() == file.deep_view());
        }
        let sanitized = source::sanitize_nginx_source(file.source.as_str());
        if !syntax::can_parse(sanitized.as_str()) {
            assert(stops_at(all, groups, i as int));
            return None;
        }
        match syntax::parse_main(sanitized.as_str()) {
            Ok(items) => {
                candidates::collect_proxy_candidates(
                    &items,
                    file.path.as_str(),
                    &upstreams,
                    &mut list,
                );
            },
            Err(words) => {
                let mut message = text::concat("failed to parse ", file.path.as_str());
                message.append(": ");
                message.append(words.as_str());
                let failure = Failure::new(ErrorKind::InvalidData, message);
                proof {
                    lemma_failure_stays(all, groups, i + 1);
                    assert forall|k: int| !#[trigger] stops_at(all, groups, k) by {
                        if i < k <= all.len() {
                            assert(all.take(k).take(i + 1) =~= all.take(i + 1));
                            lemma_failure_stays(all.take(k), groups, i + 1);
                        } else if 0 <= k <= i {
                            assert(scannable(all[k]));
                        }
                    }
                }
                return Some(Err(failure));
            },
        }
        i = i + 1;
    }
    assert(all.take(files.len() as int) =~= all);
    assert forall|k: int| !#[trigger] stops_at(all, groups, k) by {
        if 0 <= k < all.len() {
            assert(scannable(all[k]));
        }
    }
    Some(propose(root, list, server_name_hint))
}

/// What is proposed for the configuration in `files`, which was read from the
/// file `root` on.
pub fn scan_nginx_config(
    root: &str,
    files: &Vec<NginxScanFile>,
    server_name_hint: Option<&str>,
) -> (r: Result<NginxScanProposal, Failure>)
    requires
        forall|k: int| 0 <= k < files.len() ==> #[trigger] scannable(files[k].deep_view()),
    ensures
        failure::outcome(r) == scanned(root@, files.deep_view(), server_name_hint.deep_view()),
{
    let ghost all = files.deep_view();
    assert forall|k: int| 0 <= k < all.len() implies #[trigger] scannable(all[k]) by {
        assert(scannable(files[k].deep_view()));
    }
    match try_scan(root, files, server_name_hint) {
        Some(result) => result,
        None => {
            proof {
                if exists|k: int| 0 <= k < files.len() && #[trigger] too_long(all[k]) {
                    let k = choose|k: int| 0 <= k < files.len() && #[trigger] too_long(all[k]);
                    assert(scannable(all[k]));
                } else {
                    let groups = candidates::all_upstreams(all);
                    let k = choose|k: int| #[trigger] stops_at(all, groups, k);
                    assert(scannable(all[k]));
                }
            }
            vstd::pervasive::unreached()
        },
    }
}

proof fn lemma_failure_stays(
    files: Seq<ScanFileView>,
    groups: Seq<(Seq<char>, TargetView)>,
    n: int,
)
    requires
        0 <= n <= files.len(),
        found(files.take(n), groups) is Err,
    ensures
        found(files, groups) == found(files.take(n), groups),
    decreases files.len(),
{
    if n == files.len() {
        assert(files.take(n) =~= files);
    } else {
        assert(files.drop_last().take(n) =~= files.take(n));
        lemma_failure_stays(files.drop_last(), groups, n);
    }
}

// ---------------------------------------------------------------------------
// What holds of a proposal
// ---------------------------------------------------------------------------

proof fn lemma_rank_order()
    ensures
        order::is_order(rank_after()),
{
    let after = rank_after();
    assert forall|a: CandidateView, b: CandidateView| #[trigger] after(a, b) implies !after(
        b,
        a,
    ) by {}
}

/// The selected candidate has the highest score, and of those with that score
/// it was found first.
pub proof fn selected_is_the_first_of_the_best(list: Seq<CandidateView>, hint: Option<Seq<char>>) -> (i:
    int)
    requires
        list.len() > 0,
    ensures
        0 <= i < list.len(),
        ranked(list, hint)[0] == (CandidateView { score: score(list[i], hint) as i32, ..list[i] }),
        forall|j: int|
            0 <= j < list.len() ==> #[trigger] score(list[j], hint) <= score(list[i], hint),
        forall|j: int| 0 <= j < i ==> #[trigger] score(list[j], hint) < score(list[i], hint),
{
    let s = scored(list, hint);
    let after = rank_after();
    lemma_rank_order();
    let i = order::first_of_sorted(s, after);
    assert forall|j: int| 0 <= j < list.len() implies #[trigger] score(list[j], hint) <= score(
        list[i],
        hint,
    ) by {
        assert(!after(s[i], s[j]));
    }
    assert forall|j: int| 0 <= j < i implies #[trigger] score(list[j], hint) < score(
        list[i],
        hint,
    ) by {
        assert(after(s[j], s[i]));
    }
    i
}

/// Where a configuration is proposed, it is the one for the first of the best
/// candidates that were found.
pub proof fn proposal_is_for_the_best(
    root: Seq<char>,
    files: Seq<ScanFileView>,
    hint: Option<Seq<char>>,
) -> (i: int)
    requires
        scanned(root, files, hint) is Ok,
    ensures
        ({
            let list = found(files, candidates::all_upstreams(files))->Ok_0;
            &&& found(files, candidates::all_upstreams(files)) is Ok
            &&& 0 <= i < list.len()
            &&& scanned(root, files, hint)->Ok_0.config == proposed_file(list[i])
            &&& forall|j: int|
                0 <= j < list.len() ==> #[trigger] score(list[j], hint) <= score(list[i], hint)
            &&& forall|j: int|
                0 <= j < i ==> #[trigger] score(list[j], hint) < score(list[i], hint)
        }),
{
    let list = found(files, candidates::all_upstreams(files))->Ok_0;
    selected_is_the_first_of_the_best(list, hint)
}

/// Where every file is understood, nothing is proposed exactly where there is no
/// candidate in them, and the failure is that nothing was found.
pub proof fn nothing_is_proposed_without_candidates(
    root: Seq<char>,
    files: Seq<ScanFileView>,
    hint: Option<Seq<char>>,
)
    requires
        found(files, candidates::all_upstreams(files)) is Ok,
    ensures
        scanned(root, files, hint) is Err <==> found(
            files,
            candidates::all_upstreams(files),
        )->Ok_0.len() == 0,
        scanned(root, files, hint) matches Err(failure) ==> failure.kind == ErrorKind::NotFound,
{
}

/// Where every file is parsed, the candidates that are found are those of each
/// file, in the order of the files.
pub proof fn parsed_files_are_searched(
    files: Seq<ScanFileView>,
    groups: Seq<(Seq<char>, TargetView)>,
)
    requires
        forall|k: int|
            0 <= k < files.len() ==> syntax::parsed(
                source::sanitized((#[trigger] files[k]).source),
            ) is Ok,
    ensures
        found(files, groups) == Ok::<Seq<CandidateView>, FailureView>(
            Seq::new(
                files.len(),
                |k: int|
                    candidates::candidates(
                        syntax::parsed(source::sanitized(files[k].source))->Ok_0,
                        files[k].path,
                        groups,
                    ),
            ).flatten(),
        ),
    decreases files.len(),
{
    let each = |k: int|
        candidates::candidates(
            syntax::parsed(source::sanitized(files[k].source))->Ok_0,
            files[k].path,
            groups,
        );
    let parts = Seq::new(files.len(), each);
    if files.len() > 0 {
        let front = files.drop_last();
        assert forall|k: int| 0 <= k < front.len() implies syntax::parsed(
            source::sanitized((#[trigger] front[k]).source),
        ) is Ok by {
            assert(front[k] == files[k]);
        }
        parsed_files_are_searched(front, groups);
        let front_each = |k: int|
            candidates::candidates(
                syntax::parsed(source::sanitized(front[k].source))->Ok_0,
                front[k].path,
                groups,
            );
        assert(parts.drop_last() =~= Seq::new(front.len(), front_each));
        assert(files[files.len() - 1] == files.last());
        parts.lemma_flatten_and_flatten_alt_are_equivalent();
        parts.drop_last().lemma_flatten_and_flatten_alt_are_equivalent();
    }
}

/// Where a server has the name that the user asked for, the selected candidate
/// has it: nothing else weighs as much.
pub proof fn hint_comes_first(list: Seq<CandidateView>, hint: Option<Seq<char>>, k: int)
    requires
        0 <= k < list.len(),
        hinted(list[k], hint),
    ensures
        hinted(ranked(list, hint)[0], hint),
{
    let i = selected_is_the_first_of_the_best(list, hint);
    assert(score(list[k], hint) <= score(list[i], hint));
}

/// The ranking holds the candidates that were found, and no others, with scores
/// that do not increase.
pub proof fn ranking_keeps_the_candidates(list: Seq<CandidateView>, hint: Option<Seq<char>>)
    ensures
        ranked(list, hint).to_multiset() == scored(list, hint).to_multiset(),
        ranked(list, hint).len() == list.len(),
        forall|i: int, j: int|
            0 <= i < j < list.len() ==> (#[trigger] ranked(list, hint)[i]).score >= (
            #[trigger] ranked(list, hint)[j]).score,
{
    let s = scored(list, hint);
    let after = rank_after();
    lemma_rank_order();
    order::sorting_keeps_the_items(s, after);
    order::sorting_puts_in_order(s, after);
    let r = ranked(list, hint);
    assert forall|i: int, j: int| 0 <= i < j < list.len() implies (#[trigger] r[i]).score >= (
    #[trigger] r[j]).score by {
        assert(!after(r[i], r[j]));
    }
}

/// The two slots of a proposal have different ports, and that of the first one,
/// which is deployed to first, is not the port of the backend.
pub proof fn proposed_ports_are_free(candidate: CandidateView)
    ensures
        ({
            let slots = proposed_file(candidate).slots->0;
            let blue = slots::lookup(slots, "blue"@);
            let green = slots::lookup(slots, "green"@);
            &&& slots.len() == 2
            &&& slots[0].name == "blue"@
            &&& slots[1].name == "green"@
            &&& blue == Some(next_port(candidate.target_port))
            &&& green == Some(next_port(next_port(candidate.target_port)))
            &&& blue != green
            &&& blue != Some(candidate.target_port)
        }),
{
    lemma_starter_slots(
        next_port(candidate.target_port),
        next_port(next_port(candidate.target_port)),
    );
}

/// The port of the second slot of a proposal is not the port of the backend
/// either, but for two backends at the end of the range of ports.
pub proof fn second_proposed_port_is_free(candidate: CandidateView)
    requires
        candidate.target_port != 65533,
        candidate.target_port != 65534,
    ensures
        slots::lookup(proposed_file(candidate).slots->0, "green"@) != Some(candidate.target_port),
{
    proposed_ports_are_free(candidate);
}

proof fn lemma_starter_slots(blue: u16, green: u16)
    ensures
        ({
            let first = SlotView { name: "blue"@, port: blue };
            let second = SlotView { name: "green"@, port: green };
            let slots = slots::inserted(slots::inserted(Seq::empty(), first), second);
            &&& slots == seq![first, second]
            &&& slots::lookup(slots, "blue"@) == Some(blue)
            &&& slots::lookup(slots, "green"@) == Some(green)
        }),
{
    reveal_strlit("blue");
    reveal_strlit("green");
    let first = SlotView { name: "blue"@, port: blue };
    let second = SlotView { name: "green"@, port: green };
    assert("blue"@[0] != "green"@[0]);
    assert(text::before("blue"@, "green"@));
    let one = slots::inserted(Seq::empty(), first);
    assert(one =~= seq![first]);
    assert(slots::inserted(one, second) =~= seq![first, second]);
    assert(seq![first, second].drop_last() =~= seq![first]);
    assert(seq![first].last() == first);
    assert(slots::lookup(seq![first], "blue"@) == Some(blue));
    assert(seq![first, second].last() == second);
}

// ---------------------------------------------------------------------------
// What a candidate is ranked by
// ---------------------------------------------------------------------------

/// The location `/` scores higher than any other, whatever the host, where the
/// rest is the same.
pub proof fn root_location_scores_higher(
    a: CandidateView,
    b: CandidateView,
    hint: Option<Seq<char>>,
)
    requires
        a.location == "/"@,
        b.location != "/"@,
        a.target_host == b.target_host,
        a.listens == b.listens,
        a.server_names == b.server_names,
    ensures
        score(a, hint) > score(b, hint),
{
}

/// A backend on this machine scores higher than one elsewhere, where the rest is
/// the same.
pub proof fn local_backend_scores_higher(
    a: CandidateView,
    b: CandidateView,
    hint: Option<Seq<char>>,
)
    requires
        a.target_host == "127.0.0.1"@ || a.target_host == "localhost"@ || a.target_host == "::1"@,
        b.target_host != "127.0.0.1"@,
        b.target_host != "localhost"@,
        b.target_host != "::1"@,
        a.location == b.location,
        a.listens == b.listens,
        a.server_names == b.server_names,
    ensures
        score(a, hint) > score(b, hint),
{
}

/// A server that listens on a port with `443` in it scores higher than one that
/// does not, where the rest is the same.
pub proof fn encrypted_server_scores_higher(
    a: CandidateView,
    b: CandidateView,
    hint: Option<Seq<char>>,
    i: int,
)
    requires
        0 <= i < a.listens.len(),
        text::contains_text(a.listens[i], "443"@),
        forall|k: int|
            0 <= k < b.listens.len() ==> !#[trigger] text::contains_text(b.listens[k], "443"@),
        a.location == b.location,
        a.target_host == b.target_host,
        a.server_names == b.server_names,
    ensures
        score(a, hint) > score(b, hint),
{
    assert(encrypted(a.listens));
}

/// A server with the name that the user asked for scores higher than any without
/// it, whatever else holds of the two; of two that both have it or both have it
/// not, the location `/` weighs more than the rest, and then the host weighs more
/// than the port that is listened on.
pub proof fn name_weighs_more_than_location_and_host(
    a: CandidateView,
    b: CandidateView,
    hint: Option<Seq<char>>,
)
    ensures
        hint matches Some(name) && a.server_names.contains(name) && !b.server_names.contains(name)
            ==> score(a, hint) > score(b, hint),
        hint is None || a.server_names == b.server_names ==> {
            &&& a.location == "/"@ && b.location != "/"@ ==> score(a, hint) > score(b, hint)
            &&& a.location == b.location && loopback(a.target_host) && !loopback(b.target_host)
                ==> score(a, hint) > score(b, hint)
        },
{
}

/// The score is made of the location, the host, the ports and the names: two
/// candidates that agree in these score the same, wherever they were found, and
/// where nobody asked for a name the names do not matter.
pub proof fn nothing_else_is_scored(a: CandidateView, b: CandidateView, hint: Option<Seq<char>>)
    requires
        a.location == b.location,
        a.target_host == b.target_host,
        a.listens == b.listens,
        hint is None || a.server_names == b.server_names,
    ensures
        score(a, hint) == score(b, hint),
        0 <= score(a, hint) <= i32::MAX,
{
}

/// Each ranked candidate is one that was found, and carries its score.
pub proof fn ranked_candidates_were_found(
    list: Seq<CandidateView>,
    hint: Option<Seq<char>>,
    p: int,
) -> (i: int)
    requires
        0 <= p < ranked(list, hint).len(),
    ensures
        0 <= i < list.len(),
        ranked(list, hint)[p] == (CandidateView { score: ranked(list, hint)[p].score, ..list[i] }),
        ranked(list, hint)[p].score == score(list[i], hint),
{
    let s = scored(list, hint);
    let r = ranked(list, hint);
    ranking_keeps_the_candidates(list, hint);
    broadcast use vstd::seq_lib::group_to_multiset_ensures;

    assert(r.contains(r[p]));
    assert(r.to_multiset().count(r[p]) > 0);
    assert(s.contains(r[p]));
    choose|i: int| 0 <= i < s.len() && s[i] == r[p]
}

/// Each candidate that was found is ranked, and none comes twice that was not
/// found twice.
pub proof fn found_candidates_are_ranked(
    list: Seq<CandidateView>,
    hint: Option<Seq<char>>,
    i: int,
) -> (p: int)
    requires
        0 <= i < list.len(),
    ensures
        0 <= p < ranked(list, hint).len(),
        ranked(list, hint).len() == list.len(),
        list[i] == (CandidateView { score: list[i].score, ..ranked(list, hint)[p] }),
{
    let s = scored(list, hint);
    let r = ranked(list, hint);
    ranking_keeps_the_candidates(list, hint);
    broadcast use vstd::seq_lib::group_to_multiset_ensures;

    assert(s[i] == (CandidateView { score: score(list[i], hint) as i32, ..list[i] }));
    assert(s.contains(s[i]));
    assert(s.to_multiset().count(s[i]) > 0);
    assert(r.contains(s[i]));
    choose|p: int| 0 <= p < r.len() && r[p] == s[i]
}

/// A candidate for the location `/` is ranked before one for another location,
/// where the hosts, the ports and the names are the same.
pub proof fn root_location_is_ranked_first(
    list: Seq<CandidateView>,
    hint: Option<Seq<char>>,
    p: int,
    q: int,
)
    requires
        0 <= p < ranked(list, hint).len(),
        0 <= q < ranked(list, hint).len(),
        ranked(list, hint)[p].location == "/"@,
        ranked(list, hint)[q].location != "/"@,
        ranked(list, hint)[p].target_host == ranked(list, hint)[q].target_host,
        ranked(list, hint)[p].listens == ranked(list, hint)[q].listens,
        ranked(list, hint)[p].server_names == ranked(list, hint)[q].server_names,
    ensures
        p < q,
{
    let i = ranked_candidates_were_found(list, hint, p);
    let j = ranked_candidates_were_found(list, hint, q);
    root_location_scores_higher(list[i], list[j], hint);
    ranking_keeps_the_candidates(list, hint);
}

/// A candidate with the name that the user asked for is ranked before every one
/// without it.
pub proof fn named_server_is_ranked_first(
    list: Seq<CandidateView>,
    name: Seq<char>,
    p: int,
    q: int,
)
    requires
        0 <= p < ranked(list, Some(name)).len(),
        0 <= q < ranked(list, Some(name)).len(),
        ranked(list, Some(name))[p].server_names.contains(name),
        !ranked(list, Some(name))[q].server_names.contains(name),
    ensures
        p < q,
{
    let i = ranked_candidates_were_found(list, Some(name), p);
    let j = ranked_candidates_were_found(list, Some(name), q);
    name_weighs_more_than_location_and_host(list[i], list[j], Some(name));
    ranking_keeps_the_candidates(list, Some(name));
}

// ---------------------------------------------------------------------------
// What is proposed and said
// ---------------------------------------------------------------------------

/// The ports of a proposal follow the one of the backend, as far as there are
/// ports; none is 0.
pub proof fn proposed_ports_follow_the_backend(candidate: CandidateView)
    ensures
        ({
            let slots = proposed_file(candidate).slots->0;
            let blue = slots::lookup(slots, "blue"@);
            let green = slots::lookup(slots, "green"@);
            &&& candidate.target_port < 65534 ==> blue == Some((candidate.target_port + 1) as u16)
            &&& candidate.target_port < 65533 ==> green == Some(
                (candidate.target_port + 2) as u16,
            )
            &&& candidate.target_port == 65535 ==> blue == Some(65534u16) && green == Some(65533u16)
            &&& candidate.target_port == 65534 ==> blue == Some(65533u16) && green == Some(65534u16)
            &&& candidate.target_port == 65533 ==> green == Some(65533u16)
            &&& blue is Some && blue->0 > 0
            &&& green is Some && green->0 > 0
        }),
{
    proposed_ports_are_free(candidate);
}

/// A proposal watches the host of the backend and sends the traffic there.
pub proof fn proposal_keeps_the_host(candidate: CandidateView)
    ensures
        proposed_file(candidate).health matches Some(HealthView::Tcp { host, .. }) && host
            == candidate.target_host,
        proposed_file(candidate).switch matches Some(switch)
            && switch->NginxProxyPassInclude_host == candidate.target_host,
        proposed_file(candidate).launch matches Some(launch) && launch.env_files.len() == 0,
        proposed_file(candidate).home is Some,
{
}

proof fn lemma_place_is_named(front: Seq<char>, candidate: CandidateView)
    ensures
        text::starts(place_text(front, candidate), front + candidate.file),
        text::contains_text(place_text(front, candidate), candidate.file),
        text::contains_text(
            place_text(front, candidate),
            " server_name="@ + names_text(candidate.server_names),
        ),
        text::contains_text(place_text(front, candidate), " location="@ + candidate.location),
        text::contains_text(place_text(front, candidate), " proxy_pass="@ + candidate.proxy_pass),
{
    let whole = place_text(front, candidate);
    let none = Seq::<char>::empty();
    let names = " server_name="@ + names_text(candidate.server_names);
    let place = " location="@ + candidate.location;
    let pass = " proxy_pass="@ + candidate.proxy_pass;
    assert(whole =~= front + candidate.file + (names + place + pass));
    text::text_occurs_where_it_stands(front, candidate.file, names + place + pass);
    assert(whole =~= (front + candidate.file) + (names + place + pass));
    text::text_occurs_where_it_stands(none, front + candidate.file, names + place + pass);
    assert(whole =~= (front + candidate.file) + names + (place + pass));
    text::text_occurs_where_it_stands(front + candidate.file, names, place + pass);
    assert(whole =~= (front + candidate.file + names) + place + pass);
    text::text_occurs_where_it_stands(front + candidate.file + names, place, pass);
    assert(whole =~= (front + candidate.file + names + place) + pass + none);
    text::text_occurs_where_it_stands(front + candidate.file + names + place, pass, none);
}

/// The notes say which candidate was selected, with its file, its names, its
/// location and what it passes requests to, and where its backend is.
pub proof fn notes_name_the_selected_candidate(list: Seq<CandidateView>)
    requires
        list.len() > 0,
    ensures
        notes(list).len() >= 3,
        notes(list)[1]
            == "replace the selected proxy_pass with: include /etc/nginx/doubleshot/proxy-pass.inc;"@,
        text::starts(notes(list)[0], "selected "@ + list[0].file),
        text::contains_text(notes(list)[0], " location="@ + list[0].location),
        text::contains_text(notes(list)[0], " proxy_pass="@ + list[0].proxy_pass),
        list[0].server_names.len() == 0 ==> text::contains_text(
            notes(list)[0],
            " server_name=<none>"@,
        ),
        list[0].server_names.len() > 0 ==> text::contains_text(
            notes(list)[0],
            " server_name="@ + text::joined(list[0].server_names, ","@),
        ),
        text::contains_text(
            notes(list)[2],
            list[0].target_host + ":"@ + number::decimal(list[0].target_port as nat),
        ),
{
    lemma_place_is_named("selected "@, list[0]);
    reveal_strlit(" server_name=");
    reveal_strlit("<none>");
    reveal_strlit(" server_name=<none>");
    assert(" server_name="@ + "<none>"@ =~= " server_name=<none>"@);
    let backend = list[0].target_host + ":"@ + number::decimal(list[0].target_port as nat);
    let behind = "; generated first deploy slot avoids that occupied port"@;
    text::text_occurs_where_it_stands("detected existing backend "@, backend, behind);
    assert(notes(list)[2] =~= "detected existing backend "@ + backend + behind);
}

/// Where there is more than one candidate, the notes list the first of them, in
/// order and at most five, each with its score, its file, its names, its location
/// and what it passes requests to. Where there is only one, there is no list.
pub proof fn notes_list_the_ranking(list: Seq<CandidateView>)
    requires
        list.len() > 0,
    ensures
        list.len() == 1 ==> notes(list).len() == 3,
        1 < list.len() <= 5 ==> notes(list).len() == 4 + list.len(),
        list.len() > 5 ==> notes(list).len() == 9,
        list.len() > 1 ==> forall|k: int|
            4 <= k < notes(list).len() ==> {
                &&& text::starts(
                    #[trigger] notes(list)[k],
                    "score="@ + number::signed_decimal(list[k - 4].score as int) + " file="@
                        + list[k - 4].file,
                )
                &&& text::contains_text(
                    notes(list)[k],
                    " server_name="@ + names_text(list[k - 4].server_names),
                )
                &&& text::contains_text(notes(list)[k], " location="@ + list[k - 4].location)
                &&& text::contains_text(notes(list)[k], " proxy_pass="@ + list[k - 4].proxy_pass)
            },
{
    if list.len() > 1 {
        assert forall|k: int| 4 <= k < notes(list).len() implies {
            &&& text::starts(
                #[trigger] notes(list)[k],
                "score="@ + number::signed_decimal(list[k - 4].score as int) + " file="@ + list[k
                    - 4].file,
            )
            &&& text::contains_text(
                notes(list)[k],
                " server_name="@ + names_text(list[k - 4].server_names),
            )
            &&& text::contains_text(notes(list)[k], " location="@ + list[k - 4].location)
            &&& text::contains_text(notes(list)[k], " proxy_pass="@ + list[k - 4].proxy_pass)
        } by {
            assert(notes(list)[k] == rank_text(list[k - 4]));
            lemma_place_is_named(
                "score="@ + number::signed_decimal(list[k - 4].score as int) + " file="@,
                list[k - 4],
            );
        }
    }
}

/// The first file that the parser does not take is named in the failure, with
/// the words of the parser, whatever the files behind it hold.
pub proof fn file_that_cannot_be_parsed_is_named(
    files: Seq<ScanFileView>,
    groups: Seq<(Seq<char>, TargetView)>,
    k: int,
    words: Seq<char>,
)
    requires
        0 <= k < files.len(),
        forall|j: int|
            0 <= j < k ==> syntax::parsed(
                source::sanitized((#[trigger] files[j]).source),
            ) is Ok,
        syntax::parsed(source::sanitized(files[k].source)) == Err::<
            Seq<syntax::ItemView>,
            Seq<char>,
        >(words),
    ensures
        found(files, groups) == Err::<Seq<CandidateView>, FailureView>(
            FailureView {
                kind: ErrorKind::InvalidData,
                message: "failed to parse "@ + files[k].path + ": "@ + words,
            },
        ),
    decreases files.len(),
{
    let front = files.drop_last();
    if k == files.len() - 1 {
        assert forall|j: int| 0 <= j < front.len() implies syntax::parsed(
            source::sanitized((#[trigger] front[j]).source),
        ) is Ok by {
            assert(front[j] == files[j]);
        }
        parsed_files_are_searched(front, groups);
    } else {
        assert forall|j: int| 0 <= j < k implies syntax::parsed(
            source::sanitized((#[trigger] front[j]).source),
        ) is Ok by {
            assert(front[j] == files[j]);
        }
        assert(front[k] == files[k]);
        file_that_cannot_be_parsed_is_named(front, groups, k, words);
    }
}

/// A proposal is for the best of the candidates in the files, and the notes are
/// those of the ranking; where there are none, the failure names the file that
/// the search began with.
pub proof fn scan_proposes_from_the_files(
    root: Seq<char>,
    files: Seq<ScanFileView>,
    hint: Option<Seq<char>>,
)
    requires
        found(files, candidates::all_upstreams(files)) is Ok,
    ensures
        ({
            let list = found(files, candidates::all_upstreams(files))->Ok_0;
            &&& list.len() == 0 ==> (scanned(root, files, hint) matches Err(failure)
                && text::contains_text(failure.message, root))
            &&& list.len() > 0 ==> (scanned(root, files, hint) matches Ok(made) && {
                &&& made.notes == notes(ranked(list, hint))
                &&& made.config.health == Some(
                    HealthView::Tcp {
                        host: ranked(list, hint)[0].target_host,
                        timeout_seconds: 120,
                        interval_millis: 1000,
                    },
                )
            })
        }),
{
    let front = "no proxy_pass candidates found from "@;
    text::text_occurs_where_it_stands(front, root, Seq::empty());
    assert(front + root + Seq::<char>::empty() =~= front + root);
}

/// Candidates with the same score stay in the order in which they were found.
pub proof fn equal_candidates_stay_in_order(
    list: Seq<CandidateView>,
    hint: Option<Seq<char>>,
    points: i32,
)
    ensures
        ranked(list, hint).filter(|c: CandidateView| c.score == points) == scored(
            list,
            hint,
        ).filter(|c: CandidateView| c.score == points),
{
    let same = |c: CandidateView| c.score == points;
    let after = rank_after();
    assert forall|a: CandidateView, b: CandidateView| same(a) && same(b) implies !#[trigger] after(
        a,
        b,
    ) by {}
    order::sorting_is_stable(scored(list, hint), after, same);
}

/// A file that is plain, once what is not understood is left empty, can be
/// scanned, as far as its length can be counted.
pub proof fn plain_file_can_be_scanned(file: ScanFileView)
    requires
        file.source.len() <= i32::MAX,
        syntax::plain(source::sanitized(file.source)),
        !text::contains_text(source::sanitized(file.source), "unix:"@),
    ensures
        scannable(file),
        !too_long(file),
{
    syntax::plain_source_is_taken(source::sanitized(file.source));
}

} // verus!
