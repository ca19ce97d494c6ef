//! The log of deployment events, and following it.
use vstd::prelude::*;

use crate::failure::{ErrorKind, Failure, FailureView};
use crate::text;

verus! {

// ---------------------------------------------------------------------------
// Events
// ---------------------------------------------------------------------------

/// How far a deployment is.
#[derive(Clone, Copy, Debug, PartialEq, Eq, Structural)]
pub enum Phase {
    Started,
    Imported,
    Launching,
    Waiting,
    Ready,
    Switching,
    Succeeded,
    Failed,
}

/// An event: the name of the artifact, how far its deployment is, and what
/// there is to say of it.
#[derive(Debug)]
pub struct DeployEvent {
    pub artifact: String,
    pub phase: Phase,
    pub message: String,
}

/// What a [`DeployEvent`] holds.
pub struct EventView {
    pub artifact: Seq<char>,
    pub phase: Phase,
    pub message: Seq<char>,
}

impl DeepView for DeployEvent {
    type V = EventView;

    open spec fn deep_view(&self) -> EventView {
        EventView { artifact: self.artifact@, phase: self.phase, message: self.message@ }
    }
}

impl Phase {
    /// The word for a phase.
    pub open spec fn word(self) -> Seq<char> {
        match self {
            Phase::Started => "started"@,
            Phase::Imported => "imported"@,
            Phase::Launching => "launching"@,
            Phase::Waiting => "waiting"@,
            Phase::Ready => "ready"@,
            Phase::Switching => "switching"@,
            Phase::Succeeded => "succeeded"@,
            Phase::Failed => "failed"@,
        }
    }

    /// Whether a deployment is over with this phase.
    pub open spec fn last(self) -> bool {
        self == Phase::Succeeded || self == Phase::Failed
    }

    /// The word for a phase.
    pub fn name(self) -> (r: &'static str)
        ensures
            r@ == self.word(),
    {
        match self {
            Phase::Started => "started",
            Phase::Imported => "imported",
            Phase::Launching => "launching",
            Phase::Waiting => "waiting",
            Phase::Ready => "ready",
            Phase::Switching => "switching",
            Phase::Succeeded => "succeeded",
            Phase::Failed => "failed",
        }
    }
}

/// The phase that a word stands for.
pub open spec fn phase_of(word: Seq<char>) -> Option<Phase> {
    if word == "started"@ {
        Some(Phase::Started)
    } else if word == "imported"@ {
        Some(Phase::Imported)
    } else if word == "launching"@ {
        Some(Phase::Launching)
    } else if word == "waiting"@ {
        Some(Phase::Waiting)
    } else if word == "ready"@ {
        Some(Phase::Ready)
    } else if word == "switching"@ {
        Some(Phase::Switching)
    } else if word == "succeeded"@ {
        Some(Phase::Succeeded)
    } else if word == "failed"@ {
        Some(Phase::Failed)
    } else {
        None
    }
}

fn read_phase(word: &str) -> (r: Option<Phase>)
    ensures
        r == phase_of(word@),
{
    if text::same(word, "started") {
        Some(Phase::Started)
    } else if text::same(word, "imported") {
        Some(Phase::Imported)
    } else if text::same(word, "launching") {
        Some(Phase::Launching)
    } else if text::same(word, "waiting") {
        Some(Phase::Waiting)
    } else if text::same(word, "ready") {
        Some(Phase::Ready)
    } else if text::same(word, "switching") {
        Some(Phase::Switching)
    } else if text::same(word, "succeeded") {
        Some(Phase::Succeeded)
    } else if text::same(word, "failed") {
        Some(Phase::Failed)
    } else {
        None
    }
}

proof fn lemma_words()
    ensures
        forall|p: Phase| phase_of(#[trigger] p.word()) == Some(p),
        forall|p: Phase, k: int|
            0 <= k < p.word().len() ==> #[trigger] p.word()[k] != '\t' && p.word()[k] != '\n'
                && p.word()[k] != '\r',
{
    reveal_strlit("started");
    reveal_strlit("imported");
    reveal_strlit("launching");
    reveal_strlit("waiting");
    reveal_strlit("ready");
    reveal_strlit("switching");
    reveal_strlit("succeeded");
    reveal_strlit("failed");
    assert("started"@[0] == 's' && "started"@[1] == 't');
    assert("imported"@[0] == 'i');
    assert("launching"@[0] == 'l');
    assert("waiting"@[0] == 'w' && "waiting"@[1] == 'a');
    assert("ready"@[0] == 'r');
    assert("switching"@[0] == 's' && "switching"@[1] == 'w');
    assert("succeeded"@[0] == 's' && "succeeded"@[1] == 'u');
    assert("failed"@[0] == 'f');
    assert forall|p: Phase| phase_of(#[trigger] p.word()) == Some(p) by {
        match p {
            Phase::Started => {},
            Phase::Imported => {},
            Phase::Launching => {},
            Phase::Waiting => {},
            Phase::Ready => {},
            Phase::Switching => {},
            Phase::Succeeded => {},
            Phase::Failed => {},
        }
    }
}

// ---------------------------------------------------------------------------
// The log
// ---------------------------------------------------------------------------

/// A character as it is written in the log, where tabs and line ends have a
/// meaning of their own.
pub open spec fn escaped_char(c: char) -> Seq<char> {
    if c == '\\' {
        seq!['\\', '\\']
    } else if c == '\n' {
        seq!['\\', 'n']
    } else if c == '\r' {
        seq!['\\', 'r']
    } else if c == '\t' {
        seq!['\\', 't']
    } else {
        seq![c]
    }
}

/// A text as it is written in the log.
pub open spec fn escaped(s: Seq<char>) -> Seq<char>
    decreases s.len(),
{
    if s.len() == 0 {
        s
    } else {
        escaped(s.drop_last()) + escaped_char(s.last())
    }
}

/// The character that a letter behind a backslash stands for.
pub open spec fn unescaped_char(c: char) -> Option<char> {
    if c == '\\' {
        Some('\\')
    } else if c == 'n' {
        Some('\n')
    } else if c == 'r' {
        Some('\r')
    } else if c == 't' {
        Some('\t')
    } else {
        None
    }
}

/// The text that was written in the log.
pub open spec fn unescaped(s: Seq<char>) -> Option<Seq<char>>
    decreases s.len(),
{
    if s.len() == 0 {
        Some(s)
    } else if s[0] != '\\' {
        match unescaped(s.drop_first()) {
            Some(rest) => Some(seq![s[0]] + rest),
            None => None,
        }
    } else if s.len() == 1 {
        None
    } else {
        match (unescaped_char(s[1]), unescaped(s.skip(2))) {
            (Some(c), Some(rest)) => Some(seq![c] + rest),
            _ => None,
        }
    }
}

/// An event as a line of the log, without the end of the line.
pub open spec fn event_line(event: EventView) -> Seq<char> {
    escaped(event.artifact) + "\t"@ + event.phase.word() + "\t"@ + escaped(event.message)
}

/// The event in a line of the log.
pub open spec fn line_event(line: Seq<char>) -> Option<EventView> {
    let parts = text::pieces(line, '\t');
    if parts.len() != 3 {
        None
    } else {
        match (unescaped(parts[0]), phase_of(parts[1]), unescaped(parts[2])) {
            (Some(artifact), Some(phase), Some(message)) => Some(
                EventView { artifact, phase, message },
            ),
            _ => None,
        }
    }
}

/// The lines of a log that are complete; what is behind the last line end is
/// still being written.
pub open spec fn complete_lines(log: Seq<char>) -> Seq<Seq<char>> {
    text::pieces(log, '\n').drop_last()
}

/// The events in lines of a log; lines that hold none are passed over.
pub open spec fn line_events(lines: Seq<Seq<char>>) -> Seq<EventView>
    decreases lines.len(),
{
    if lines.len() == 0 {
        Seq::empty()
    } else {
        let front = line_events(lines.drop_last());
        match line_event(lines.last()) {
            Some(event) => front.push(event),
            None => front,
        }
    }
}

/// The events in a log.
pub open spec fn log_events(log: Seq<char>) -> Seq<EventView> {
    line_events(complete_lines(log))
}

fn escape(s: &str) -> (r: String)
    ensures
        r@ == escaped(s@),
{
    let v = text::chars_of(s);
    let mut r = String::new();
    let mut i: usize = 0;
    assert(v@.take(0) =~= Seq::empty());
    while i < v.len()
        invariant
            i <= v.len(),
            v@ == s@,
            r@ == escaped(v@.take(i as int)),
        decreases v.len() - i,
    {
        let ghost done = r@;
        assert(v@.take(i + 1).drop_last() =~= v@.take(i as int));
        let c = v[i];
        if c == '\\' {
            r.push('\\');
            r.push('\\');
        } else if c == '\n' {
            r.push('\\');
            r.push('n');
        } else if c == '\r' {
            r.push('\\');
            r.push('r');
        } else if c == '\t' {
            r.push('\\');
            r.push('t');
        } else {
            r.push(c);
        }
        assert(r@ =~= done + escaped_char(c));
        i = i + 1;
    }
    assert(v@.take(v.len() as int) =~= v@);
    r
}

fn unescape(s: &str) -> (r: Option<String>)
    ensures
        r.deep_view() == unescaped(s@),
{
    let v = text::chars_of(s);
    let mut r = String::new();
    let mut i: usize = 0;
    assert(v@.skip(0) =~= v@);
    assert(unescaped(s@) matches Some(rest) ==> r@ + rest =~= rest);
    while i < v.len()
        invariant
            i <= v.len(),
            v@ == s@,
            match unescaped(v@.skip(i as int)) {
                Some(rest) => unescaped(s@) == Some(r@ + rest),
                None => unescaped(s@) is None,
            },
        decreases v.len() - i,
    {
        let ghost done = r@;
        let ghost rest = v@.skip(i as int);
        let c = v[i];
        assert(rest[0] == c);
        assert(rest.drop_first() =~= v@.skip(i + 1));
        if c != '\\' {
            r.push(c);
            i = i + 1;
            proof {
                match unescaped(v@.skip(i as int)) {
                    Some(more) => {
                        assert(done + (seq![c] + more) =~= r@ + more);
                    },
                    None => {},
                }
            }
        } else {
            if v.len() - i < 2 {
                return None;
            }
            let letter = v[i + 1];
            assert(rest[1] == letter);
            assert(rest.skip(2) =~= v@.skip(i + 2));
            let meant = if letter == '\\' {
                '\\'
            } else if letter == 'n' {
                '\n'
            } else if letter == 'r' {
                '\r'
            } else if letter == 't' {
                '\t'
            } else {
                return None;
            };
            r.push(meant);
            i = i + 2;
            proof {
                match unescaped(v@.skip(i as int)) {
                    Some(more) => {
                        assert(done + (seq![meant] + more) =~= r@ + more);
                    },
                    None => {},
                }
            }
        }
    }
    assert(v@.skip(i as int) =~= Seq::empty());
    assert(r@ + Seq::<char>::empty() =~= r@);
    Some(r)
}

/// An event as a line of the log, with the end of the line.
pub fn write_event(event: &DeployEvent) -> (r: String)
    ensures
        r@ == event_line(event.deep_view()).push('\n'),
{
    let mut r = escape(event.artifact.as_str());
    let message = escape(event.message.as_str());
    r.append("\t");
    r.append(event.phase.name());
    r.append("\t");
    r.append(message.as_str());
    r.push('\n');
    r
}

fn read_event(line: &str) -> (r: Option<DeployEvent>)
    ensures
        r.deep_view() == line_event(line@),
{
    let parts = text::split(line, '\t');
    let ghost all = text::pieces(line@, '\t');
    assert(parts.deep_view().len() == parts.len());
    if parts.len() != 3 {
        return None;
    }
    assert(all[0] == parts@[0]@ && all[1] == parts@[1]@ && all[2] == parts@[2]@);
    let artifact = match unescape(parts[0].as_str()) {
        Some(artifact) => artifact,
        None => return None,
    };
    let phase = match read_phase(parts[1].as_str()) {
        Some(phase) => phase,
        None => return None,
    };
    match unescape(parts[2].as_str()) {
        Some(message) => Some(DeployEvent { artifact, phase, message }),
        None => None,
    }
}

/// The events in a log.
pub fn read_log(log: &str) -> (r: Vec<DeployEvent>)
    ensures
        r.deep_view() == log_events(log@),
{
    let lines = text::split(log, '\n');
    let ghost all = complete_lines(log@);
    let mut r: Vec<DeployEvent> = Vec::new();
    let mut i: usize = 0;
    assert(all.take(0) =~= Seq::empty());
    assert(r.deep_view() =~= Seq::empty());
    assert(lines.deep_view().len() == lines.len());
    while i + 1 < lines.len()
        invariant
            i < lines.len(),
            lines.deep_view() == text::pieces(log@, '\n'),
            all == lines.deep_view().drop_last(),
            r.deep_view() == line_events(all.take(i as int)),
        decreases lines.len() - i,
    {
        let ghost done = r.deep_view();
        assert(all.take(i + 1).drop_last() =~= all.take(i as int));
        assert(all[i as int] == lines@[i as int]@);
        match read_event(lines[i].as_str()) {
            Some(event) => {
                let ghost new = event.deep_view();
                r.push(event);
                assert(r.deep_view() =~= done.push(new));
            },
            None => {},
        }
        i = i + 1;
    }
    assert(all.take(i as int) =~= all);
    r
}

// ---------------------------------------------------------------------------
// Reading back what was written
// ---------------------------------------------------------------------------

proof fn lemma_unescape_one(c: char, t: Seq<char>)
    ensures
        unescaped(escaped_char(c) + t) == match unescaped(t) {
            Some(rest) => Some(seq![c] + rest),
            None => None,
        },
{
    let s = escaped_char(c) + t;
    if c == '\\' || c == '\n' || c == '\r' || c == '\t' {
        assert(s[0] == '\\');
        assert(s.skip(2) =~= t);
    } else {
        assert(s[0] == c);
        assert(s.drop_first() =~= t);
    }
}

proof fn lemma_unescape(s: Seq<char>, t: Seq<char>)
    ensures
        unescaped(escaped(s) + t) == match unescaped(t) {
            Some(rest) => Some(s + rest),
            None => None,
        },
    decreases s.len(),
{
    if s.len() == 0 {
        assert(escaped(s) + t =~= t);
        match unescaped(t) {
            Some(rest) => {
                assert(s + rest =~= rest);
            },
            None => {},
        }
    } else {
        let front = s.drop_last();
        let more = escaped_char(s.last()) + t;
        lemma_unescape(front, more);
        lemma_unescape_one(s.last(), t);
        assert(escaped(s) + t =~= escaped(front) + more);
        match unescaped(t) {
            Some(rest) => {
                assert(front + (seq![s.last()] + rest) =~= s + rest);
            },
            None => {},
        }
    }
}

proof fn lemma_escaped_is_plain(s: Seq<char>)
    ensures
        forall|k: int|
            0 <= k < escaped(s).len() ==> #[trigger] escaped(s)[k] != '\t' && escaped(s)[k] != '\n'
                && escaped(s)[k] != '\r',
    decreases s.len(),
{
    if s.len() > 0 {
        let front = escaped(s.drop_last());
        lemma_escaped_is_plain(s.drop_last());
        let all = escaped(s);
        assert forall|k: int| 0 <= k < all.len() implies #[trigger] all[k] != '\t' && all[k] != '\n'
            && all[k] != '\r' by {
            if k < front.len() {
                assert(all[k] == front[k]);
            } else {
                assert(all[k] == escaped_char(s.last())[k - front.len()]);
            }
        }
    }
}

proof fn lemma_one_piece(s: Seq<char>, c: char)
    requires
        forall|k: int| 0 <= k < s.len() ==> s[k] != c,
    ensures
        text::pieces(s, c) == seq![s],
{
    text::lemma_position_bounds(s, c);
    text::lemma_position_is(s, c, s.len() as int);
}

proof fn lemma_pieces_behind(a: Seq<char>, b: Seq<char>, c: char)
    ensures
        text::pieces(a.push(c) + b, c) == text::pieces(a, c) + text::pieces(b, c),
    decreases a.len(),
{
    let s = a.push(c) + b;
    text::lemma_position_bounds(a, c);
    let n = text::position(a, c) as int;
    if n < a.len() {
        let t = text::tail(a, c);
        assert forall|k: int| 0 <= k < n implies s[k] != c by {
            assert(a[k] != c);
        }
        assert(s[n] == c);
        text::lemma_position_is(s, c, n);
        assert(text::head(s, c) =~= text::head(a, c));
        assert(text::tail(s, c) =~= t.push(c) + b);
        lemma_pieces_behind(t, b, c);
        assert(seq![text::head(a, c)] + (text::pieces(t, c) + text::pieces(b, c)) =~= text::pieces(
            a,
            c,
        ) + text::pieces(b, c));
    } else {
        assert forall|k: int| 0 <= k < a.len() implies s[k] != c by {
            assert(a[k] != c);
        }
        assert(s[a.len() as int] == c);
        text::lemma_position_is(s, c, a.len() as int);
        assert(text::head(s, c) =~= a);
        assert(text::tail(s, c) =~= b);
    }
}

/// A line that was written for an event is read as that event.
pub proof fn written_event_reads_back(event: EventView)
    ensures
        line_event(event_line(event)) == Some(event),
        !event_line(event).contains('\n'),
{
    let a = escaped(event.artifact);
    let p = event.phase.word();
    let m = escaped(event.message);
    let line = event_line(event);
    reveal_strlit("\t");
    lemma_words();
    lemma_escaped_is_plain(event.artifact);
    lemma_escaped_is_plain(event.message);
    assert forall|k: int| 0 <= k < p.len() implies p[k] != '\t' by {
        assert(event.phase.word()[k] != '\t');
    }
    assert(line =~= a.push('\t') + (p.push('\t') + m));
    lemma_one_piece(a, '\t');
    lemma_one_piece(p, '\t');
    lemma_one_piece(m, '\t');
    lemma_pieces_behind(a, p.push('\t') + m, '\t');
    lemma_pieces_behind(p, m, '\t');
    let parts = text::pieces(line, '\t');
    assert(parts =~= seq![a, p, m]);
    lemma_unescape(event.artifact, Seq::empty());
    lemma_unescape(event.message, Seq::empty());
    assert(a + Seq::<char>::empty() =~= a);
    assert(m + Seq::<char>::empty() =~= m);
    assert(event.artifact + Seq::<char>::empty() =~= event.artifact);
    assert(event.message + Seq::<char>::empty() =~= event.message);
    assert forall|k: int| 0 <= k < line.len() implies line[k] != '\n' by {
        if k < a.len() {
            assert(line[k] == a[k]);
        } else if a.len() < k <= a.len() + p.len() {
            assert(line[k] == p[k - a.len() - 1]);
            assert(event.phase.word()[k - a.len() - 1] != '\t');
        } else if k > a.len() + p.len() + 1 {
            assert(line[k] == m[k - a.len() - p.len() - 2]);
        }
    }
}

/// An event that is added at the end of a log is read behind the events that
/// the log held.
pub proof fn added_event_comes_last(log: Seq<char>, event: EventView)
    requires
        log.len() == 0 || log.last() == '\n',
    ensures
        log_events(log + event_line(event).push('\n')) == log_events(log).push(event),
{
    let line = event_line(event);
    let none = Seq::<char>::empty();
    written_event_reads_back(event);
    assert forall|k: int| 0 <= k < line.len() implies line[k] != '\n' by {
        assert(!line.contains('\n'));
    }
    lemma_one_piece(line, '\n');
    lemma_one_piece(none, '\n');
    let added = line.push('\n');
    assert(added =~= line.push('\n') + none);
    lemma_pieces_behind(line, none, '\n');
    assert(text::pieces(added, '\n') =~= seq![line, none]);
    let all = log + added;
    if log.len() == 0 {
        assert(log =~= none);
        assert(all =~= added);
        assert(complete_lines(log) =~= Seq::empty());
        assert(complete_lines(all) =~= seq![line]);
        assert(seq![line].drop_last() =~= Seq::empty());
    } else {
        let front = log.drop_last();
        assert(log =~= front.push('\n') + none);
        lemma_pieces_behind(front, none, '\n');
        assert(all =~= front.push('\n') + added);
        lemma_pieces_behind(front, added, '\n');
        assert(complete_lines(log) =~= text::pieces(front, '\n'));
        assert(complete_lines(all) =~= complete_lines(log).push(line));
        assert(complete_lines(log).push(line).drop_last() =~= complete_lines(log));
    }
}

// ---------------------------------------------------------------------------
// Following
// ---------------------------------------------------------------------------

/// The events of an artifact.
pub open spec fn events_of(events: Seq<EventView>, artifact: Seq<char>) -> Seq<EventView>
    decreases events.len(),
{
    if events.len() == 0 {
        Seq::empty()
    } else {
        let front = events_of(events.drop_last(), artifact);
        if events.last().artifact == artifact {
            front.push(events.last())
        } else {
            front
        }
    }
}

/// The events up to the first with which a deployment is over.
pub open spec fn up_to_end(events: Seq<EventView>) -> Seq<EventView>
    decreases events.len(),
{
    if events.len() == 0 {
        events
    } else {
        let front = up_to_end(events.drop_last());
        if over(front) {
            front
        } else {
            front.push(events.last())
        }
    }
}

/// Whether a deployment is over with the last of the events.
pub open spec fn over(events: Seq<EventView>) -> bool {
    events.len() > 0 && events.last().phase.last()
}

/// The events of the deployment of an artifact, as far as the log holds them.
pub open spec fn history(log: Seq<char>, artifact: Seq<char>) -> Seq<EventView> {
    up_to_end(events_of(log_events(log), artifact))
}

/// An event as it is shown.
pub open spec fn event_text(event: EventView) -> Seq<char> {
    "["@ + event.phase.word() + "] "@ + event.message
}

/// How the deployment of an artifact ended.
#[derive(Debug)]
pub enum FollowEnd {
    /// It is not over, as far as the log tells.
    Open,
    Succeeded,
    Failed(Failure),
}

/// What is shown next, and how the deployment ended.
#[derive(Debug)]
pub struct FollowStep {
    pub lines: Vec<String>,
    pub end: FollowEnd,
}

/// How a deployment with these events ended.
pub open spec fn ends_with(end: FollowEnd, artifact: Seq<char>, events: Seq<EventView>) -> bool {
    if !over(events) {
        end is Open
    } else if events.last().phase == Phase::Succeeded {
        end is Succeeded
    } else {
        end matches FollowEnd::Failed(failure) && failure.deep_view() == (FailureView {
            kind: ErrorKind::Other,
            message: "deployment failed for "@ + artifact + ": "@ + events.last().message,
        })
    }
}

/// Follows the deployment of an artifact in a log that grows.
#[derive(Debug)]
pub struct Follower {
    artifact: String,
    shown: usize,
}

impl Follower {
    /// The name of the artifact.
    pub closed spec fn artifact(&self) -> Seq<char> {
        self.artifact@
    }

    /// How many events were shown.
    pub closed spec fn shown(&self) -> nat {
        self.shown as nat
    }

    /// Starts to follow: all events of the artifact that are in the log are
    /// shown.
    pub fn new(artifact: &str) -> (r: Follower)
        ensures
            r.artifact() == artifact@,
            r.shown() == 0,
    {
        Follower { artifact: artifact.to_owned(), shown: 0 }
    }

    /// What is shown next, for what the log holds now: the events of the
    /// deployment that were not shown yet.
    pub fn follow(&mut self, log: &str) -> (r: FollowStep)
        ensures
            ({
                let events = history(log@, old(self).artifact());
                let from = if old(self).shown() < events.len() {
                    old(self).shown() as int
                } else {
                    events.len() as int
                };
                &&& r.lines.deep_view() == events.skip(from).map_values(
                    |e: EventView| event_text(e),
                )
                &&& ends_with(r.end, old(self).artifact(), events)
                &&& final(self).artifact() == old(self).artifact()
                &&& final(self).shown() == old(self).shown() + (events.len() - from)
            }),
    {
        let all = read_log(log);
        let ghost every = all.deep_view();
        let ghost artifact = self.artifact@;
        let mut lines: Vec<String> = Vec::new();
        let mut seen: usize = 0;
        let mut end = FollowEnd::Open;
        let mut ended = false;
        let ghost mut part: Seq<EventView> = Seq::empty();
        let mut i: usize = 0;
        assert(every.take(0) =~= Seq::empty());
        assert(lines.deep_view() =~= part.skip(0).map_values(|e: EventView| event_text(e)));
        while i < all.len()
            invariant
                i <= all.len(),
                seen <= i,
                every == all.deep_view(),
                artifact == self.artifact@,
                self.shown == old(self).shown,
                part == up_to_end(events_of(every.take(i as int), artifact)),
                part.len() == seen,
                ended == over(part),
                ends_with(end, artifact, part),
                lines.deep_view() == part.skip(
                    if self.shown < part.len() {
                        self.shown as int
                    } else {
                        part.len() as int
                    },
                ).map_values(|e: EventView| event_text(e)),
            decreases all.len() - i,
        {
            let event = &all[i];
            let ghost view = event.deep_view();
            let ghost before = part;
            let ghost done = lines.deep_view();
            proof {
                assert(every.take(i + 1).drop_last() =~= every.take(i as int));
                assert(every[i as int] == view);
                let mine = events_of(every.take(i as int), artifact);
                assert(mine.push(view).drop_last() =~= mine);
            }
            if !ended && text::same(event.artifact.as_str(), self.artifact.as_str()) {
                proof {
                    part = before.push(view);
                }
                if seen >= self.shown {
                    let mut line = text::concat("[", event.phase.name());
                    line.append("] ");
                    line.append(event.message.as_str());
                    lines.push(line);
                    assert(lines.deep_view() =~= done.push(event_text(view)));
                    assert(part.skip(self.shown as int) =~= before.skip(self.shown as int).push(
                        view,
                    ));
                    assert(lines.deep_view() =~= part.skip(self.shown as int).map_values(
                        |e: EventView| event_text(e),
                    ));
                } else {
                    assert(before.skip(before.len() as int) =~= Seq::empty());
                    assert(part.skip(part.len() as int) =~= Seq::empty());
                    assert(lines.deep_view() =~= part.skip(part.len() as int).map_values(
                        |e: EventView| event_text(e),
                    ));
                }
                seen = seen + 1;
                match event.phase {
                    Phase::Succeeded => {
                        ended = true;
                        end = FollowEnd::Succeeded;
                    },
                    Phase::Failed => {
                        let mut message = text::concat(
                            "deployment failed for ",
                            self.artifact.as_str(),
                        );
                        message.append(": ");
                        message.append(event.message.as_str());
                        ended = true;
                        end = FollowEnd::Failed(Failure::new(ErrorKind::Other, message));
                    },
                    _ => {},
                }
            }
            i = i + 1;
        }
        assert(every.take(all.len() as int) =~= every);
        if self.shown < seen {
            self.shown = seen;
        }
        FollowStep { lines, end }
    }

    /// The failure where no event came in time.
    pub fn timed_out(&self) -> (r: Failure)
        ensures
            r.deep_view() == (FailureView {
                kind: ErrorKind::TimedOut,
                message: "no deployment events arrived within timeout for "@ + self.artifact(),
            }),
    {
        Failure::new(
            ErrorKind::TimedOut,
            text::concat(
                "no deployment events arrived within timeout for ",
                self.artifact.as_str(),
            ),
        )
    }
}

proof fn lemma_pieces_stay(a: Seq<char>, b: Seq<char>, c: char)
    ensures
        text::pieces(a, c).len() >= 1,
        text::pieces(a + b, c).len() >= text::pieces(a, c).len(),
        text::pieces(a, c).drop_last().is_prefix_of(text::pieces(a + b, c).drop_last()),
    decreases a.len(),
{
    let s = a + b;
    text::lemma_position_bounds(a, c);
    let n = text::position(a, c) as int;
    if n < a.len() {
        let t = text::tail(a, c);
        assert forall|k: int| 0 <= k < n implies s[k] != c by {
            assert(a[k] != c);
        }
        assert(s[n] == c);
        text::lemma_position_is(s, c, n);
        assert(text::head(s, c) =~= text::head(a, c));
        assert(text::tail(s, c) =~= t + b);
        lemma_pieces_stay(t, b, c);
        let x = text::pieces(t, c);
        let y = text::pieces(t + b, c);
        let h = seq![text::head(a, c)];
        assert((h + x).drop_last() =~= h + x.drop_last());
        assert((h + y).drop_last() =~= h + y.drop_last());
        assert(y.drop_last().take(x.drop_last().len() as int) =~= x.drop_last());
        assert((h + y.drop_last()).take(h.len() + x.drop_last().len() as int) =~= h
            + x.drop_last());
    } else {
        assert(text::pieces(a, c).drop_last() =~= Seq::empty());
    }
}

proof fn lemma_line_events_sum(x: Seq<Seq<char>>, y: Seq<Seq<char>>)
    ensures
        line_events(x + y) == line_events(x) + line_events(y),
    decreases y.len(),
{
    if y.len() == 0 {
        assert(x + y =~= x);
        assert(line_events(x) + line_events(y) =~= line_events(x));
    } else {
        assert((x + y).drop_last() =~= x + y.drop_last());
        lemma_line_events_sum(x, y.drop_last());
        assert(line_events(x + y) =~= line_events(x) + line_events(y));
    }
}

proof fn lemma_events_of_sum(x: Seq<EventView>, y: Seq<EventView>, artifact: Seq<char>)
    ensures
        events_of(x + y, artifact) == events_of(x, artifact) + events_of(y, artifact),
    decreases y.len(),
{
    if y.len() == 0 {
        assert(x + y =~= x);
        assert(events_of(x, artifact) + events_of(y, artifact) =~= events_of(x, artifact));
    } else {
        assert((x + y).drop_last() =~= x + y.drop_last());
        lemma_events_of_sum(x, y.drop_last(), artifact);
        assert(events_of(x + y, artifact) =~= events_of(x, artifact) + events_of(y, artifact));
    }
}

proof fn lemma_up_to_end_sum(x: Seq<EventView>, y: Seq<EventView>)
    ensures
        up_to_end(x).is_prefix_of(up_to_end(x + y)),
        over(up_to_end(x)) ==> up_to_end(x + y) == up_to_end(x),
    decreases y.len(),
{
    let a = up_to_end(x);
    let b = up_to_end(x + y);
    if y.len() == 0 {
        assert(x + y =~= x);
        assert(b.take(a.len() as int) =~= a);
    } else {
        assert((x + y).drop_last() =~= x + y.drop_last());
        lemma_up_to_end_sum(x, y.drop_last());
        let m = up_to_end(x + y.drop_last());
        assert(m.take(a.len() as int) =~= a);
        assert(b.take(a.len() as int) =~= a);
    }
}

/// What was shown of a deployment stays true while the log grows: more events
/// come behind it, and none once the deployment is over.
pub proof fn shown_events_stay(log: Seq<char>, more: Seq<char>, artifact: Seq<char>)
    ensures
        history(log, artifact).is_prefix_of(history(log + more, artifact)),
        over(history(log, artifact)) ==> history(log + more, artifact) == history(log, artifact),
{
    lemma_pieces_stay(log, more, '\n');
    let x = complete_lines(log);
    let all = complete_lines(log + more);
    let y = all.skip(x.len() as int);
    assert(all.take(x.len() as int) =~= x);
    assert(all =~= x + y);
    lemma_line_events_sum(x, y);
    lemma_events_of_sum(line_events(x), line_events(y), artifact);
    lemma_up_to_end_sum(
        events_of(line_events(x), artifact),
        events_of(line_events(y), artifact),
    );
}

// ---------------------------------------------------------------------------
// What a log tells
// ---------------------------------------------------------------------------

/// The lines of a log are read one by one, in order; a line that is no event is
/// passed over.
pub proof fn lines_of_a_log_are_read_in_order(a: Seq<Seq<char>>, b: Seq<Seq<char>>)
    ensures
        line_events(a + b) == line_events(a) + line_events(b),
        a.len() == 0 ==> line_events(a).len() == 0,
        a.len() == 1 ==> line_events(a) == match line_event(a[0]) {
            Some(event) => seq![event],
            None => Seq::empty(),
        },
{
    reveal_with_fuel(line_events, 2);
    if a.len() == 1 {
        assert(a.drop_last() =~= Seq::empty());
    }
    lemma_line_events_sum(a, b);
}

/// A line that is still being written is not read: it counts when its end of
/// line is there. A line with another number of fields, or with a word for no
/// phase, is no event.
pub proof fn unfinished_line_is_not_read(log: Seq<char>, partial: Seq<char>)
    requires
        log.len() == 0 || log.last() == '\n',
        !partial.contains('\n'),
    ensures
        log_events(log + partial) == log_events(log),
        text::pieces(partial, '\t').len() != 3 ==> line_event(partial) is None,
        text::pieces(partial, '\t').len() == 3 && phase_of(text::pieces(partial, '\t')[1]) is None
            ==> line_event(partial) is None,
{
    lemma_partial_is_the_last_piece(log, partial);
}

proof fn lemma_partial_is_the_last_piece(log: Seq<char>, partial: Seq<char>)
    requires
        log.len() == 0 || log.last() == '\n',
        !partial.contains('\n'),
    ensures
        complete_lines(log + partial) == complete_lines(log),
    decreases log.len(),
{
    let none = Seq::<char>::empty();
    text::pieces_stand_between_separators(partial, '\n', none);
    text::pieces_stand_between_separators(none, '\n', none);
    if log.len() == 0 {
        assert(log + partial =~= partial);
        assert(log =~= none);
        assert(seq![partial].drop_last() =~= seq![none].drop_last());
    } else {
        text::lemma_position_bounds(log, '\n');
        assert(log[log.len() - 1] == '\n');
        assert(log.contains('\n'));
        let n = text::position(log, '\n') as int;
        let first = log.take(n);
        let rest = log.skip(n + 1);
        assert(log =~= first.push('\n') + rest);
        assert(log + partial =~= first.push('\n') + (rest + partial));
        assert(!first.contains('\n')) by {
            assert forall|k: int| 0 <= k < first.len() implies first[k] != '\n' by {
                assert(first[k] == log[k]);
            }
        }
        text::pieces_stand_between_separators(first, '\n', rest);
        text::pieces_stand_between_separators(first, '\n', rest + partial);
        if rest.len() > 0 {
            assert(rest.last() == log.last());
        }
        lemma_partial_is_the_last_piece(rest, partial);
        lemma_some_piece(rest);
        lemma_some_piece(rest + partial);
        assert((seq![first] + text::pieces(rest, '\n')).drop_last() =~= seq![first] + text::pieces(
            rest,
            '\n',
        ).drop_last());
        assert((seq![first] + text::pieces(rest + partial, '\n')).drop_last() =~= seq![first]
            + text::pieces(rest + partial, '\n').drop_last());
    }
}

proof fn lemma_some_piece(s: Seq<char>)
    ensures
        text::pieces(s, '\n').len() > 0,
{
}

/// The words for the phases are these, and each phase has its own.
pub proof fn phases_have_their_words(phase: Phase)
    ensures
        phase_of(phase.word()) == Some(phase),
        phase_of("succeeded"@) == Some(Phase::Succeeded),
        phase_of("failed"@) == Some(Phase::Failed),
        phase_of("started"@) == Some(Phase::Started),
        phase_of("imported"@) == Some(Phase::Imported),
        phase_of("launching"@) == Some(Phase::Launching),
        phase_of("waiting"@) == Some(Phase::Waiting),
        phase_of("ready"@) == Some(Phase::Ready),
        phase_of("switching"@) == Some(Phase::Switching),
{
    lemma_words();
    assert(Phase::Started.word() == "started"@);
    assert(Phase::Imported.word() == "imported"@);
    assert(Phase::Launching.word() == "launching"@);
    assert(Phase::Waiting.word() == "waiting"@);
    assert(Phase::Ready.word() == "ready"@);
    assert(Phase::Switching.word() == "switching"@);
    assert(Phase::Succeeded.word() == "succeeded"@);
    assert(Phase::Failed.word() == "failed"@);
}

proof fn lemma_events_of_is_a_filter(events: Seq<EventView>, artifact: Seq<char>)
    ensures
        events_of(events, artifact) == events.filter(|e: EventView| e.artifact == artifact),
    decreases events.len(),
{
    reveal(Seq::filter);
    if events.len() > 0 {
        lemma_events_of_is_a_filter(events.drop_last(), artifact);
    }
}

proof fn lemma_up_to_end(events: Seq<EventView>, k: int)
    requires
        0 <= k <= events.len(),
        forall|i: int|
            0 <= i < k ==> (#[trigger] events[i]).phase != Phase::Succeeded && events[i].phase
                != Phase::Failed,
        k < events.len() ==> events[k].phase == Phase::Succeeded || events[k].phase
            == Phase::Failed,
    ensures
        up_to_end(events) == if k < events.len() {
            events.take(k + 1)
        } else {
            events
        },
    decreases events.len(),
{
    if events.len() > 0 {
        let front = events.drop_last();
        assert(events[events.len() - 1] == events.last());
        assert(events =~= front.push(events.last()));
        if k < events.len() - 1 {
            lemma_up_to_end(front, k);
            assert(front.take(k + 1) =~= events.take(k + 1));
            assert(events.take(k + 1).last() == events[k]);
        } else {
            lemma_up_to_end(front, front.len() as int);
            if front.len() > 0 {
                assert(front.last() == events[front.len() - 1]);
            }
            assert(events.take(events.len() as int) =~= events);
        }
    }
}

/// What is shown of a deployment is the events of its artifact, in order, up to
/// the first that says that it succeeded or failed; and all of them, where none
/// does.
pub proof fn history_is_up_to_the_end(log: Seq<char>, artifact: Seq<char>, k: int)
    requires
        ({
            let own = log_events(log).filter(|e: EventView| e.artifact == artifact);
            &&& 0 <= k <= own.len()
            &&& forall|i: int|
                0 <= i < k ==> (#[trigger] own[i]).phase != Phase::Succeeded && own[i].phase
                    != Phase::Failed
            &&& k < own.len() ==> own[k].phase == Phase::Succeeded || own[k].phase
                == Phase::Failed
        }),
    ensures
        ({
            let own = log_events(log).filter(|e: EventView| e.artifact == artifact);
            history(log, artifact) == if k < own.len() {
                own.take(k + 1)
            } else {
                own
            }
        }),
{
    lemma_events_of_is_a_filter(log_events(log), artifact);
    lemma_up_to_end(events_of(log_events(log), artifact), k);
}

/// Following ends with the last event that is shown, where that says that the
/// deployment succeeded or failed; a failure is told with the artifact and what
/// there is to say of it. It goes on otherwise.
pub proof fn following_ends_with_the_deployment(
    end: FollowEnd,
    artifact: Seq<char>,
    events: Seq<EventView>,
)
    requires
        ends_with(end, artifact, events),
    ensures
        end is Open <==> events.len() == 0 || (events.last().phase != Phase::Succeeded
            && events.last().phase != Phase::Failed),
        end is Succeeded <==> events.len() > 0 && events.last().phase == Phase::Succeeded,
        end is Failed <==> events.len() > 0 && events.last().phase == Phase::Failed,
        end matches FollowEnd::Failed(failure) ==> {
            &&& failure.kind == ErrorKind::Other
            &&& text::contains_text(failure.message@, artifact)
            &&& text::contains_text(failure.message@, events.last().message)
        },
{
    if let FollowEnd::Failed(failure) = end {
        let message = events.last().message;
        let none = Seq::<char>::empty();
        let front = "deployment failed for "@;
        text::text_occurs_where_it_stands(front, artifact, ": "@ + message);
        assert(front + artifact + (": "@ + message) =~= failure.message@);
        text::text_occurs_where_it_stands(front + artifact + ": "@, message, none);
        assert(front + artifact + ": "@ + message + none =~= failure.message@);
    }
}

/// An event is shown with its phase in brackets and what there is to say of it.
pub proof fn events_are_shown_with_their_phase(event: EventView)
    ensures
        event_text(event) == "["@ + event.phase.word() + "] "@ + event.message,
        text::contains_text(event_text(event), event.message),
{
    let front = "["@ + event.phase.word() + "] "@;
    text::text_occurs_where_it_stands(front, event.message, Seq::empty());
    assert(front + event.message + Seq::<char>::empty() =~= event_text(event));
}

proof fn lemma_escaped_sum(a: Seq<char>, b: Seq<char>)
    ensures
        escaped(a + b) == escaped(a) + escaped(b),
    decreases b.len(),
{
    if b.len() == 0 {
        assert(a + b =~= a);
        assert(escaped(a) + escaped(b) =~= escaped(a));
    } else {
        lemma_escaped_sum(a, b.drop_last());
        assert((a + b).drop_last() =~= a + b.drop_last());
        assert((a + b).last() == b.last());
        assert(escaped(a + b) =~= escaped(a) + escaped(b));
    }
}

/// What would break a line or a field is written as a backslash and a letter,
/// and a backslash is doubled; every other character stands for itself.
pub proof fn breaks_are_written_with_a_backslash(before: Seq<char>, c: char, behind: Seq<char>)
    ensures
        escaped(before + seq![c] + behind) == escaped(before) + if c == '\n' {
            "\\n"@
        } else if c == '\r' {
            "\\r"@
        } else if c == '\t' {
            "\\t"@
        } else if c == '\\' {
            "\\\\"@
        } else {
            seq![c]
        } + escaped(behind),
        escaped(Seq::empty()).len() == 0,
{
    reveal_strlit("\\n");
    reveal_strlit("\\r");
    reveal_strlit("\\t");
    reveal_strlit("\\\\");
    reveal_with_fuel(escaped, 2);
    lemma_escaped_sum(before + seq![c], behind);
    lemma_escaped_sum(before, seq![c]);
    assert(seq![c].drop_last() =~= Seq::empty());
    assert(escaped(seq![c]) =~= escaped_char(c));
    assert("\\n"@ =~= seq!['\\', 'n']);
    assert("\\r"@ =~= seq!['\\', 'r']);
    assert("\\t"@ =~= seq!['\\', 't']);
    assert("\\\\"@ =~= seq!['\\', '\\']);
}

proof fn lemma_plain_is_kept(s: Seq<char>)
    requires
        forall|k: int|
            0 <= k < s.len() ==> {
                let c = #[trigger] s[k];
                c != '\\' && c != '\n' && c != '\r' && c != '\t'
            },
    ensures
        escaped(s) == s,
    decreases s.len(),
{
    if s.len() > 0 {
        lemma_plain_is_kept(s.drop_last());
        assert(s[s.len() - 1] == s.last());
        assert(s.drop_last() + seq![s.last()] =~= s);
    }
}

/// An event without such characters is written as it is: the artifact, the word
/// for the phase and the message, with a tab between each two.
pub proof fn plain_event_is_written_as_it_is(event: EventView)
    requires
        forall|k: int|
            0 <= k < event.artifact.len() ==> {
                let c = #[trigger] event.artifact[k];
                c != '\\' && c != '\n' && c != '\r' && c != '\t'
            },
        forall|k: int|
            0 <= k < event.message.len() ==> {
                let c = #[trigger] event.message[k];
                c != '\\' && c != '\n' && c != '\r' && c != '\t'
            },
    ensures
        event_line(event) == event.artifact + "\t"@ + event.phase.word() + "\t"@ + event.message,
{
    lemma_plain_is_kept(event.artifact);
    lemma_plain_is_kept(event.message);
}

/// A field with an escape that is not written, or with a backslash at its end,
/// cannot be read; one without a backslash stands for itself.
pub proof fn unknown_escape_is_not_read(front: Seq<char>, c: char, rest: Seq<char>)
    requires
        !front.contains('\\'),
        c != '\\',
        c != 'n',
        c != 'r',
        c != 't',
    ensures
        unescaped(front) == Some(front),
        unescaped(front + seq!['\\', c] + rest) is None,
        unescaped(front + seq!['\\']) is None,
    decreases front.len(),
{
    let bad = front + seq!['\\', c] + rest;
    let open = front + seq!['\\'];
    if front.len() == 0 {
        assert(bad[0] == '\\' && bad[1] == c);
        assert(open.len() == 1 && open[0] == '\\');
    } else {
        let t = front.drop_first();
        assert(front.contains(front[0]));
        assert(!t.contains('\\')) by {
            assert forall|k: int| 0 <= k < t.len() implies t[k] != '\\' by {
                assert(t[k] == front[k + 1]);
                assert(front.contains(front[k + 1]));
            }
        }
        assert(bad[0] == front[0]);
        assert(open[0] == front[0]);
        assert(bad.drop_first() =~= t + seq!['\\', c] + rest);
        assert(open.drop_first() =~= t + seq!['\\']);
        unknown_escape_is_not_read(t, c, rest);
        assert(seq![front[0]] + t =~= front);
    }
}

} // verus!
