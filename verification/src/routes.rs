//! The decisions of the HTTP routes: the defaults of an attach request,
//! the actions named at the end of a path segment, the output of a run in
//! a short-lived box, and which stored and live events the stream of an
//! execution sends.
use vstd::prelude::*;
use crate::events::{Event, EventView};
use crate::json::{exit_code_member, read_exit_code};
use crate::models::RunResponse;
use crate::store::{BoxRow, BoxRowView, EventRow, EventRowView, event_views, opt_str_view};
use crate::error::{BoxRunError, ErrorCode};
use crate::box_manager::{box_result, err_view};
use crate::text::{first_index_of, last_index_of, split_once, rsplit_once, str_eq, join2, join3, i64_to_text, int_text};

verus! {

/// The shell that an attach request runs unless it names one.
pub fn default_shell() -> (r: String)
    ensures
        r@ == "/bin/bash"@,
{
    "/bin/bash".to_owned()
}

/// The terminal width of an attach request unless it gives one.
pub fn default_cols() -> (r: u16)
    ensures
        r == 80,
{
    80
}

/// The terminal height of an attach request unless it gives one.
pub fn default_rows() -> (r: u16)
    ensures
        r == 24,
{
    24
}

/// The terminal type of an attach request unless it names one.
pub fn default_term() -> (r: String)
    ensures
        r@ == "xterm-256color"@,
{
    "xterm-256color".to_owned()
}

/// What can be done to a box through its action path.
#[derive(Debug, Clone, Copy, PartialEq, Eq, Structural)]
pub enum BoxAction {
    Stop,
    Start,
}

/// The box and the action that a path segment `id:action` names, or why
/// it names none.
pub open spec fn box_action_of(seg: Seq<char>) -> Result<(Seq<char>, BoxAction), Seq<char>> {
    match last_index_of(seg, ':') {
        None => Err("Missing action (expected :stop or :start)"@),
        Some(i) => {
            let action = seg.subrange(i + 1, seg.len() as int);
            if action == "stop"@ {
                Ok((seg.subrange(0, i), BoxAction::Stop))
            } else if action == "start"@ {
                Ok((seg.subrange(0, i), BoxAction::Start))
            } else {
                Err("Unknown action: "@ + action)
            }
        },
    }
}

/// A parsed box action as content.
pub open spec fn box_action_view(r: Result<(String, BoxAction), String>) -> Result<(Seq<char>, BoxAction), Seq<char>> {
    match r {
        Ok((id, a)) => Ok((id@, a)),
        Err(m) => Err(m@),
    }
}

/// Splits a path segment `id:action` at its last colon into the box and
/// the action, which must be `stop` or `start`.
pub fn parse_box_action(seg: &str) -> (r: Result<(String, BoxAction), String>)
    ensures
        box_action_view(r) == box_action_of(seg@),
{
    proof {
        reveal_strlit("stop");
        reveal_strlit("start");
    }
    match rsplit_once(seg, ':') {
        None => Err("Missing action (expected :stop or :start)".to_owned()),
        Some((id, action)) => {
            if str_eq(action.as_str(), "stop") {
                Ok((id, BoxAction::Stop))
            } else if str_eq(action.as_str(), "start") {
                Ok((id, BoxAction::Start))
            } else {
                Err(join2("Unknown action: ", action.as_str()))
            }
        },
    }
}

/// The execution that a path segment `id:cancel` names, or why it names
/// none.
pub open spec fn exec_action_of(seg: Seq<char>) -> Result<Seq<char>, Seq<char>> {
    match last_index_of(seg, ':') {
        None => Err("Missing action (expected :cancel)"@),
        Some(i) => {
            let action = seg.subrange(i + 1, seg.len() as int);
            if action == "cancel"@ {
                Ok(seg.subrange(0, i))
            } else {
                Err("Unknown action: "@ + action)
            }
        },
    }
}

/// A text result as content.
pub open spec fn text_result(r: Result<String, String>) -> Result<Seq<char>, Seq<char>> {
    match r {
        Ok(s) => Ok(s@),
        Err(m) => Err(m@),
    }
}

/// Splits a path segment `id:cancel` at its last colon into the
/// execution and the action, which must be `cancel`.
pub fn parse_exec_action(seg: &str) -> (r: Result<String, String>)
    ensures
        text_result(r) == exec_action_of(seg@),
{
    match rsplit_once(seg, ':') {
        None => Err("Missing action (expected :cancel)".to_owned()),
        Some((id, action)) => {
            if str_eq(action.as_str(), "cancel") {
                Ok(id)
            } else {
                Err(join2("Unknown action: ", action.as_str()))
            }
        },
    }
}

/// The box that a path segment names: the part before its first colon.
pub open spec fn box_id_part(seg: Seq<char>) -> Seq<char> {
    match first_index_of(seg, ':') {
        Some(i) => seg.subrange(0, i),
        None => seg,
    }
}

/// The box that a path segment names, ignoring any action after a colon.
pub fn path_box_id(seg: &str) -> (r: String)
    ensures
        r@ == box_id_part(seg@),
{
    match split_once(seg, ':') {
        Some((id, _)) => id,
        None => seg.to_owned(),
    }
}

/// Whether a removal forces a running box out: only when `force` is `true`.
pub fn force_requested(force: Option<&str>) -> (r: bool)
    ensures
        r == (opt_str_view(force) == Some("true"@)),
{
    match force {
        Some(f) => str_eq(f, "true"),
        None => false,
    }
}

/// The output of a run: the standard output and standard error logged,
/// each in order, and the exit code that the last readable exit event
/// gives.
pub open spec fn run_output(events: Seq<EventRowView>) -> (Seq<char>, Seq<char>, Option<i64>)
    decreases events.len(),
{
    if events.len() == 0 {
        (Seq::empty(), Seq::empty(), None)
    } else {
        let prev = run_output(events.drop_last());
        let ev = events.last();
        if ev.event_type == "log"@ {
            if ev.stream == Some("stdout"@) {
                (prev.0 + ev.data, prev.1, prev.2)
            } else if ev.stream == Some("stderr"@) {
                (prev.0, prev.1 + ev.data, prev.2)
            } else {
                prev
            }
        } else if ev.event_type == "exit"@ {
            match exit_code_member(ev.data) {
                Some(c) => (prev.0, prev.1, c),
                None => prev,
            }
        } else {
            prev
        }
    }
}

/// Whether an optional text is the given one.
fn opt_is(o: &Option<String>, t: &str) -> (r: bool)
    ensures
        r == (opt_str_view_owned(*o) == Some(t@)),
{
    match o {
        Some(s) => str_eq(s.as_str(), t),
        None => false,
    }
}

pub open spec fn opt_str_view_owned(o: Option<String>) -> Option<Seq<char>> {
    match o {
        Some(s) => Some(s@),
        None => None,
    }
}

/// Collects the output of a run from its stored events.
pub fn collect_run_output(events: &[EventRow]) -> (r: RunResponse)
    ensures
        (r.stdout@, r.stderr@, r.exit_code) == run_output(event_views(events@)),
        r.error_message is None,
{
    let ghost evs = event_views(events@);
    let mut stdout = String::new();
    let mut stderr = String::new();
    let mut exit_code: Option<i64> = None;
    let mut i: usize = 0;
    proof {
        assert(evs.take(0) =~= Seq::<EventRowView>::empty());
    }
    while i < events.len()
        invariant
            i <= events@.len(),
            evs == event_views(events@),
            (stdout@, stderr@, exit_code) == run_output(evs.take(i as int)),
        decreases events@.len() - i,
    {
        let ev = &events[i];
        proof {
            assert(evs.take(i + 1).drop_last() =~= evs.take(i as int));
            assert(evs.take(i + 1).last() == ev@);
        }
        if str_eq(ev.event_type.as_str(), "log") {
            if opt_is(&ev.stream, "stdout") {
                stdout.append(ev.data.as_str());
            } else if opt_is(&ev.stream, "stderr") {
                stderr.append(ev.data.as_str());
            }
        } else if str_eq(ev.event_type.as_str(), "exit") {
            match read_exit_code(ev.data.as_str()) {
                Some(c) => {
                    exit_code = c;
                },
                None => {},
            }
        }
        i = i + 1;
    }
    proof {
        assert(evs.take(events@.len() as int) =~= evs);
    }
    RunResponse { exit_code, stdout, stderr, error_message: None }
}

/// Replaying stored events to a stream: from `seen`, the sequence numbers
/// already sent, each event in turn is sent and its number noted, unless
/// `skip_seen` holds and its number was already sent; an exit event
/// ends the replay. The result is what is sent, the numbers seen after
/// it, and whether the stream ended.
pub open spec fn replay(seen: Seq<i64>, events: Seq<EventRowView>, skip_seen: bool) -> (Seq<EventRowView>, Seq<i64>, bool)
    decreases events.len(),
{
    if events.len() == 0 {
        (Seq::empty(), seen, false)
    } else {
        let e = events[0];
        if skip_seen && seen.contains(e.seq) {
            replay(seen, events.drop_first(), skip_seen)
        } else if e.event_type == "exit"@ {
            (seq![e], seen.push(e.seq), true)
        } else {
            let r = replay(seen.push(e.seq), events.drop_first(), skip_seen);
            (seq![e] + r.0, r.1, r.2)
        }
    }
}

/// Whether a sequence number is among those noted.
fn contains_seq(seen: &Vec<i64>, x: i64) -> (r: bool)
    ensures
        r == seen@.contains(x),
{
    let mut i: usize = 0;
    while i < seen.len()
        invariant
            i <= seen@.len(),
            forall|j: int| 0 <= j < i ==> seen@[j] != x,
        decreases seen@.len() - i,
    {
        if seen[i] == x {
            return true;
        }
        i = i + 1;
    }
    false
}

/// Replays stored events to a stream, noting the sequence numbers sent in
/// `seen`; returns what is sent and whether an exit event ended it.
pub fn replay_events(seen: &mut Vec<i64>, events: &[EventRow], skip_seen: bool) -> (r: (Vec<EventRow>, bool))
    ensures
        (event_views(r.0@), final(seen)@, r.1) == replay(old(seen)@, event_views(events@), skip_seen),
{
    let ghost evs = event_views(events@);
    let ghost seen0 = seen@;
    let mut out: Vec<EventRow> = Vec::new();
    let mut i: usize = 0;
    proof {
        assert(evs.skip(0) =~= evs);
        assert(event_views(out@) =~= Seq::<EventRowView>::empty());
        let r = replay(seen@, evs.skip(0), skip_seen);
        assert(Seq::<EventRowView>::empty() + r.0 =~= r.0);
    }
    while i < events.len()
        invariant
            i <= events@.len(),
            evs == event_views(events@),
            seen0 == old(seen)@,
            ({
                let r = replay(seen@, evs.skip(i as int), skip_seen);
                replay(seen0, evs, skip_seen) == (event_views(out@) + r.0, r.1, r.2)
            }),
        decreases events@.len() - i,
    {
        let ev = &events[i];
        proof {
            assert(evs.skip(i as int)[0] == ev@);
            assert(evs.skip(i as int).drop_first() =~= evs.skip(i + 1));
        }
        if skip_seen && contains_seq(seen, ev.seq) {
            i = i + 1;
        } else {
            let ghost before = out@;
            let ghost seen_before = seen@;
            let ghost r1 = replay(seen@.push(ev.seq), evs.skip(i + 1), skip_seen);
            proof {
                assert(!(skip_seen && seen_before.contains(ev.seq)));
            }
            seen.push(ev.seq);
            out.push(ev.duplicate());
            proof {
                assert(event_views(out@) =~= event_views(before).push(ev@));
            }
            if str_eq(ev.event_type.as_str(), "exit") {
                proof {
                    assert(ev@.event_type == "exit"@);
                    assert(replay(seen_before, evs.skip(i as int), skip_seen) == (seq![ev@], seen@, true));
                    assert(event_views(before) + seq![ev@] =~= event_views(out@));
                }
                return (out, true);
            }
            proof {
                assert(event_views(before) + (seq![ev@] + r1.0) =~= event_views(out@) + r1.0);
            }
            i = i + 1;
        }
    }
    proof {
        assert(evs.skip(i as int) =~= Seq::<EventRowView>::empty());
        assert(event_views(out@) + Seq::<EventRowView>::empty() =~= event_views(out@));
    }
    (out, false)
}

/// What a stream does with a live event.
#[derive(Debug, Clone, Copy, PartialEq, Eq, Structural)]
pub enum LiveAction {
    /// Its sequence number was already sent: drop it.
    Skip,
    /// Send it.
    Send,
    /// Send it; it is the exit event, so the stream ends.
    SendAndEnd,
}

/// What a stream does with a live event, given the numbers already sent.
pub open spec fn live_action_of(seen: Seq<i64>, e: EventView) -> LiveAction {
    if seen.contains(e.seq) {
        LiveAction::Skip
    } else if e.event_type == "exit"@ {
        LiveAction::SendAndEnd
    } else {
        LiveAction::Send
    }
}

/// Decides what a stream does with a live event.
pub fn live_action(seen: &Vec<i64>, event: &Event) -> (r: LiveAction)
    ensures
        r == live_action_of(seen@, event@),
{
    if contains_seq(seen, event.seq) {
        LiveAction::Skip
    } else if str_eq(event.event_type.as_str(), "exit") {
        LiveAction::SendAndEnd
    } else {
        LiveAction::Send
    }
}

/// The greatest sequence number sent, or -1 when none was.
pub open spec fn max_seq(seen: Seq<i64>) -> int
    decreases seen.len(),
{
    if seen.len() == 0 {
        -1
    } else if max_seq(seen.drop_last()) < seen.last() {
        seen.last() as int
    } else {
        max_seq(seen.drop_last())
    }
}

/// The sequence number of the exit event that a stream makes up for a
/// finished execution: one past the greatest number sent, or 0.
pub fn synthesized_exit_seq(seen: &Vec<i64>) -> (r: i64)
    requires
        max_seq(seen@) < i64::MAX,
    ensures
        r == max_seq(seen@) + 1,
{
    let mut m: i64 = -1;
    let mut i: usize = 0;
    proof {
        assert(seen@.take(0) =~= Seq::<i64>::empty());
    }
    while i < seen.len()
        invariant
            i <= seen@.len(),
            m == max_seq(seen@.take(i as int)),
        decreases seen@.len() - i,
    {
        proof {
            assert(seen@.take(i + 1).drop_last() =~= seen@.take(i as int));
            assert(seen@.take(i + 1).last() == seen@[i as int]);
        }
        if m < seen[i] {
            m = seen[i];
        }
        i = i + 1;
    }
    proof {
        assert(seen@.take(seen@.len() as int) =~= seen@);
    }
    m + 1
}

/// The data of a made-up exit event: the exit code, or null.
pub open spec fn exit_payload_of(code: Option<i64>) -> Seq<char> {
    match code {
        Some(c) => "{\"exit_code\":"@ + int_text(c as int) + "}"@,
        None => "{\"exit_code\":null}"@,
    }
}

/// Writes the data of a made-up exit event.
pub fn exit_payload(code: Option<i64>) -> (r: String)
    ensures
        r@ == exit_payload_of(code),
{
    match code {
        Some(c) => join3("{\"exit_code\":", i64_to_text(c).as_str(), "}"),
        None => "{\"exit_code\":null}".to_owned(),
    }
}

/// The sequence numbers of events.
pub open spec fn seqs_of(events: Seq<EventRowView>) -> Seq<i64> {
    events.map_values(|e: EventRowView| e.seq)
}

/// A replay that skips what was sent sends no number that was sent
/// before, and no number twice; afterwards the numbers noted are those
/// noted before followed by those it sent.
pub proof fn law_replay_sends_each_number_once(seen: Seq<i64>, events: Seq<EventRowView>)
    ensures
        ({
            let r = replay(seen, events, true);
            &&& forall|i: int| 0 <= i < r.0.len() ==> !seen.contains(#[trigger] r.0[i].seq)
            &&& forall|i: int, j: int| 0 <= i < j < r.0.len() ==> (#[trigger] r.0[i]).seq != (#[trigger] r.0[j]).seq
            &&& r.1 == seen + seqs_of(r.0)
        }),
    decreases events.len(),
{
    if events.len() > 0 {
        let e = events[0];
        let rest = events.drop_first();
        if seen.contains(e.seq) {
            law_replay_sends_each_number_once(seen, rest);
        } else if e.event_type == "exit"@ {
            assert(seqs_of(seq![e]) =~= seq![e.seq]);
        } else {
            let s1 = seen.push(e.seq);
            law_replay_sends_each_number_once(s1, rest);
            let r1 = replay(s1, rest, true);
            let out = seq![e] + r1.0;
            assert forall|i: int| 0 <= i < out.len() implies !seen.contains(#[trigger] out[i].seq) by {
                if i > 0 {
                    assert(out[i] == r1.0[i - 1]);
                    assert(!s1.contains(r1.0[i - 1].seq));
                    if seen.contains(out[i].seq) {
                        let k = choose|k: int| 0 <= k < seen.len() && seen[k] == out[i].seq;
                        assert(s1[k] == seen[k]);
                    }
                }
            }
            assert forall|i: int, j: int| 0 <= i < j < out.len() implies (#[trigger] out[i]).seq != (#[trigger] out[j]).seq by {
                assert(out[j] == r1.0[j - 1]);
                if i == 0 {
                    assert(s1[seen.len() as int] == e.seq);
                    assert(!s1.contains(r1.0[j - 1].seq));
                } else {
                    assert(out[i] == r1.0[i - 1]);
                }
            }
            assert(seqs_of(out) =~= seq![e.seq] + seqs_of(r1.0));
            assert(s1 + seqs_of(r1.0) =~= seen + seqs_of(out));
        }
    } else {
        assert(seqs_of(Seq::<EventRowView>::empty()) =~= Seq::<i64>::empty());
        assert(seen + Seq::<i64>::empty() =~= seen);
    }
}

/// Why a terminal is not attached to a box, if it is not: the error of
/// looking the box up, then a box that is not running, then a box without
/// a machine id.
pub open spec fn attach_refusal_of(found: Result<BoxRowView, (ErrorCode, Seq<char>)>) -> Option<(ErrorCode, Seq<char>)> {
    match found {
        Err(e) => Some(e),
        Ok(b) => if b.status != "running"@ {
            Some((ErrorCode::BoxNotRunning, "Box is not running"@))
        } else if b.boxlite_id is None {
            Some((ErrorCode::RuntimeError, "Box has no BoxLite ID"@))
        } else {
            None
        },
    }
}

/// Decides whether a terminal can be attached to the box that was looked up.
pub fn attach_refusal(found: &Result<BoxRow, BoxRunError>) -> (r: Option<BoxRunError>)
    ensures
        match r {
            Some(e) => attach_refusal_of(box_result(*found)) == Some(err_view(e)),
            None => attach_refusal_of(box_result(*found)) is None,
        },
{
    match found {
        Err(e) => Some(BoxRunError::new(e.code, e.message.as_str())),
        Ok(b) => if !str_eq(b.status.as_str(), "running") {
            Some(BoxRunError::new(ErrorCode::BoxNotRunning, "Box is not running"))
        } else if b.boxlite_id.is_none() {
            Some(BoxRunError::new(ErrorCode::RuntimeError, "Box has no BoxLite ID"))
        } else {
            None
        },
    }
}

/// How the stream of a finished execution ends, after the stored events
/// not yet sent.
#[derive(Debug, Clone)]
pub enum FinishedEnd {
    /// A stored exit event was sent.
    ExitSent,
    /// An exit event is made up, with this number and data.
    Exit(i64, String),
    /// One past the greatest number sent does not fit an `i64`.
    Overflow,
}

/// How a finished stream ends, as content.
pub enum FinishedEndView {
    ExitSent,
    Exit(i64, Seq<char>),
    Overflow,
}

impl View for FinishedEnd {
    type V = FinishedEndView;

    open spec fn view(&self) -> FinishedEndView {
        match self {
            FinishedEnd::ExitSent => FinishedEndView::ExitSent,
            FinishedEnd::Exit(q, d) => FinishedEndView::Exit(*q, d@),
            FinishedEnd::Overflow => FinishedEndView::Overflow,
        }
    }
}

/// The end of the stream of a finished execution: after the stored
/// events not yet sent, either the exit event among them, or a made-up
/// exit event numbered one past the greatest number sent, with the exit
/// code of the execution; that number overflows when `i64::MAX` was sent.
pub open spec fn finished_end_of(seen: Seq<i64>, ended: bool, exit_code: Option<i64>) -> FinishedEndView {
    if ended {
        FinishedEndView::ExitSent
    } else if seen.contains(i64::MAX) {
        FinishedEndView::Overflow
    } else {
        FinishedEndView::Exit((max_seq(seen) + 1) as i64, exit_payload_of(exit_code))
    }
}

pub proof fn lemma_max_seq_bound(s: Seq<i64>)
    ensures
        max_seq(s) == -1 || s.contains(max_seq(s) as i64),
        -1 <= max_seq(s) <= i64::MAX,
    decreases s.len(),
{
    if s.len() > 0 {
        lemma_max_seq_bound(s.drop_last());
        if max_seq(s.drop_last()) >= s.last() {
            if max_seq(s.drop_last()) != -1 {
                let k = choose|k: int| 0 <= k < s.drop_last().len() && s.drop_last()[k] == max_seq(s.drop_last()) as i64;
                assert(s[k] == s.drop_last()[k]);
            }
        } else {
            assert(s[s.len() - 1] == s.last());
        }
    }
}

/// The rest of the stream of an execution found finished: the stored
/// events not yet sent, up to an exit event, and how the stream ends.
pub fn finished_stream(seen: &mut Vec<i64>, late: &[EventRow], exit_code: Option<i64>) -> (r: (Vec<EventRow>, FinishedEnd))
    ensures
        ({
            let rr = replay(old(seen)@, event_views(late@), true);
            &&& event_views(r.0@) == rr.0
            &&& final(seen)@ == rr.1
            &&& r.1@ == finished_end_of(rr.1, rr.2, exit_code)
        }),
{
    let (sent, ended) = replay_events(seen, late, true);
    if ended {
        return (sent, FinishedEnd::ExitSent);
    }
    if contains_seq(seen, i64::MAX) {
        return (sent, FinishedEnd::Overflow);
    }
    proof {
        lemma_max_seq_bound(seen@);
        if max_seq(seen@) == i64::MAX {
            assert(seen@.contains(i64::MAX));
        }
    }
    let q = synthesized_exit_seq(seen);
    (sent, FinishedEnd::Exit(q, exit_payload(exit_code)))
}

} // verus!
