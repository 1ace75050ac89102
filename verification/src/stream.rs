//! The event stream of an execution as a whole: a stream is opened only
//! for an execution that exists, and only once subscribed to its live
//! events; it then replays the stored events, ends them for an execution
//! found finished, or else forwards live events, and ends at the first
//! exit event.
use vstd::prelude::*;
use crate::box_manager::{BoxManager, ManagerView, get_exec_result, err_view, exec_result};
use crate::error::{BoxRunError, ErrorCode};
use crate::events::{Event, EventView, Subscription, subscribed};
use crate::routes::{
    replay, replay_events, finished_end_of, finished_stream, FinishedEnd, FinishedEndView, live_action,
    live_action_of, LiveAction,
};
use crate::store::{EventRow, EventRowView, event_views};

verus! {

/// Where a stream is: replaying the stored events, checking whether the
/// execution has finished, forwarding live events, or ended.
#[derive(Debug, Clone, Copy, PartialEq, Eq, Structural)]
pub enum StreamPhase {
    Replay,
    Check,
    Live,
    Ended,
}

/// The state of a stream: the sequence numbers sent from the store, and
/// its phase.
pub struct ExecStream {
    seen: Vec<i64>,
    phase: StreamPhase,
}

/// The state of a stream, as content.
pub struct ExecStreamView {
    pub seen: Seq<i64>,
    pub phase: StreamPhase,
}

impl View for ExecStream {
    type V = ExecStreamView;

    closed spec fn view(&self) -> ExecStreamView {
        ExecStreamView { seen: self.seen@, phase: self.phase }
    }
}

/// An event as the stream sends it.
#[derive(Debug, Clone)]
pub struct Frame {
    pub event_type: String,
    pub stream: Option<String>,
    pub data: String,
    pub seq: i64,
}

/// A sent event, as content.
pub struct FrameView {
    pub event_type: Seq<char>,
    pub stream: Option<Seq<char>>,
    pub data: Seq<char>,
    pub seq: i64,
}

impl View for Frame {
    type V = FrameView;

    open spec fn view(&self) -> FrameView {
        FrameView {
            event_type: self.event_type@,
            stream: match self.stream {
                Some(s) => Some(s@),
                None => None,
            },
            data: self.data@,
            seq: self.seq,
        }
    }
}

pub open spec fn frames_view(v: Seq<Frame>) -> Seq<FrameView> {
    v.map_values(|f: Frame| f@)
}

pub open spec fn row_frame(e: EventRowView) -> FrameView {
    FrameView { event_type: e.event_type, stream: e.stream, data: e.data, seq: e.seq }
}

pub open spec fn rows_frames(s: Seq<EventRowView>) -> Seq<FrameView> {
    s.map_values(|e: EventRowView| row_frame(e))
}

pub open spec fn event_frame(e: EventView) -> FrameView {
    FrameView { event_type: e.event_type, stream: e.stream, data: e.data, seq: e.seq }
}

/// What comes to a stream: the stored events, the stored events of an
/// execution found finished with its exit code, the news that it still
/// runs, or a live event.
pub enum StreamInput {
    Stored(Seq<EventRowView>),
    Finished(Seq<EventRowView>, Option<i64>),
    Running,
    Live(EventView),
}

/// A stream just opened.
pub open spec fn stream_start() -> ExecStreamView {
    ExecStreamView { seen: Seq::empty(), phase: StreamPhase::Replay }
}

/// One step of a stream: its state after an input, the events it sends,
/// and whether the exit event it makes up would overflow (where the
/// stream cannot go on). An input that does not belong to the stream's
/// phase changes nothing and sends nothing.
pub open spec fn stream_step(s: ExecStreamView, i: StreamInput) -> (ExecStreamView, Seq<FrameView>, bool) {
    let nothing = (s, Seq::<FrameView>::empty(), false);
    match i {
        StreamInput::Stored(evs) => if s.phase == StreamPhase::Replay {
            let r = replay(s.seen, evs, false);
            (ExecStreamView { seen: r.1, phase: if r.2 { StreamPhase::Ended } else { StreamPhase::Check } }, rows_frames(r.0), false)
        } else {
            nothing
        },
        StreamInput::Finished(late, code) => if s.phase == StreamPhase::Check {
            let r = replay(s.seen, late, true);
            let end = finished_end_of(r.1, r.2, code);
            let made_up = match end {
                FinishedEndView::Exit(q, d) => seq![FrameView { event_type: "exit"@, stream: None, data: d, seq: q }],
                _ => Seq::empty(),
            };
            (ExecStreamView { seen: r.1, phase: StreamPhase::Ended }, rows_frames(r.0) + made_up, end is Overflow)
        } else {
            nothing
        },
        StreamInput::Running => if s.phase == StreamPhase::Check {
            (ExecStreamView { phase: StreamPhase::Live, ..s }, Seq::empty(), false)
        } else {
            nothing
        },
        StreamInput::Live(ev) => if s.phase == StreamPhase::Live {
            match live_action_of(s.seen, ev) {
                LiveAction::Skip => nothing,
                LiveAction::Send => (s, seq![event_frame(ev)], false),
                LiveAction::SendAndEnd => (ExecStreamView { phase: StreamPhase::Ended, ..s }, seq![event_frame(ev)], false),
            }
        } else {
            nothing
        },
    }
}

fn row_frames(rows: Vec<EventRow>) -> (r: Vec<Frame>)
    ensures
        frames_view(r@) == rows_frames(event_views(rows@)),
{
    let mut out: Vec<Frame> = Vec::new();
    let mut i: usize = 0;
    while i < rows.len()
        invariant
            i <= rows@.len(),
            frames_view(out@) == rows_frames(event_views(rows@)).take(i as int),
        decreases rows@.len() - i,
    {
        let e = &rows[i];
        let f = Frame { event_type: e.event_type.clone(), stream: e.stream.clone(), data: e.data.clone(), seq: e.seq };
        let ghost before = frames_view(out@);
        out.push(f);
        proof {
            assert(frames_view(out@) =~= before.push(f@));
            assert(rows_frames(event_views(rows@)).take(i + 1) =~= rows_frames(event_views(rows@)).take(i as int).push(row_frame(e@)));
        }
        i = i + 1;
    }
    proof {
        assert(rows_frames(event_views(rows@)).take(i as int) =~= rows_frames(event_views(rows@)));
    }
    out
}

/// Opens the stream of an execution: refused as the lookup of the
/// execution refuses it when there is no such execution; else subscribed
/// to its live events before anything is read, and ready to replay.
pub fn open_stream(m: &mut BoxManager, exec_id: &str) -> (r: Result<(ExecStream, Subscription), BoxRunError>)
    requires
        old(m)@.bus.next_id < u64::MAX,
    ensures
        match r {
            Err(e) => get_exec_result(old(m)@, exec_id@) == Err::<crate::store::ExecRowView, (ErrorCode, Seq<char>)>(err_view(e))
                && final(m)@ == old(m)@,
            Ok((s, sub)) => get_exec_result(old(m)@, exec_id@) is Ok
                && final(m)@ == (ManagerView { bus: subscribed(old(m)@.bus, exec_id@), ..old(m)@ })
                && sub.exec_of() == exec_id@
                && s@ == stream_start(),
        },
{
    match m.get_exec(exec_id) {
        Err(e) => return Err(e),
        Ok(_) => {},
    }
    let sub = m.subscribe_events(exec_id);
    let s = ExecStream { seen: Vec::new(), phase: StreamPhase::Replay };
    proof {
        assert(s@.seen =~= Seq::<i64>::empty());
    }
    Ok((s, sub))
}

impl ExecStream {
    /// Whether the stream has ended.
    pub fn is_ended(&self) -> (r: bool)
        ensures
            r == (self@.phase == StreamPhase::Ended),
    {
        self.phase == StreamPhase::Ended
    }

    /// Replays the stored events of the execution.
    pub fn on_stored(&mut self, events: &[EventRow]) -> (r: Vec<Frame>)
        ensures
            (final(self)@, frames_view(r@), false) == stream_step(old(self)@, StreamInput::Stored(event_views(events@))),
    {
        if self.phase != StreamPhase::Replay {
            return Vec::new();
        }
        let (sent, ended) = replay_events(&mut self.seen, events, false);
        self.phase = if ended { StreamPhase::Ended } else { StreamPhase::Check };
        row_frames(sent)
    }

    /// Ends the stream of an execution found finished: the stored events
    /// not yet sent, and an exit event made up unless one was sent; the
    /// flag tells that the made-up number would overflow.
    pub fn on_finished(&mut self, late: &[EventRow], exit_code: Option<i64>) -> (r: (Vec<Frame>, bool))
        ensures
            (final(self)@, frames_view(r.0@), r.1) == stream_step(old(self)@, StreamInput::Finished(event_views(late@), exit_code)),
    {
        if self.phase != StreamPhase::Check {
            return (Vec::new(), false);
        }
        let (sent, end) = finished_stream(&mut self.seen, late, exit_code);
        self.phase = StreamPhase::Ended;
        let mut frames = row_frames(sent);
        let ghost rows = frames_view(frames@);
        let overflow = match end {
            FinishedEnd::Exit(q, d) => {
                frames.push(Frame { event_type: "exit".to_owned(), stream: None, data: d, seq: q });
                false
            },
            FinishedEnd::ExitSent => false,
            FinishedEnd::Overflow => true,
        };
        proof {
            reveal_strlit("exit");
            assert(frames_view(frames@) =~= rows + match end@ {
                FinishedEndView::Exit(q, d) => seq![FrameView { event_type: "exit"@, stream: None, data: d, seq: q }],
                _ => Seq::empty(),
            });
        }
        (frames, overflow)
    }

    /// Goes on to live events: the execution still runs.
    pub fn on_running(&mut self)
        ensures
            (final(self)@, Seq::<FrameView>::empty(), false) == stream_step(old(self)@, StreamInput::Running),
    {
        if self.phase == StreamPhase::Check {
            self.phase = StreamPhase::Live;
        }
    }

    /// Forwards a live event, unless its number was sent from the store;
    /// an exit event ends the stream.
    pub fn on_live(&mut self, ev: &Event) -> (r: Vec<Frame>)
        ensures
            (final(self)@, frames_view(r@), false) == stream_step(old(self)@, StreamInput::Live(ev@)),
    {
        let mut out: Vec<Frame> = Vec::new();
        if self.phase != StreamPhase::Live {
            proof {
                assert(frames_view(out@) =~= Seq::<FrameView>::empty());
            }
            return out;
        }
        match live_action(&self.seen, ev) {
            LiveAction::Skip => {},
            LiveAction::Send => {
                out.push(Frame { event_type: ev.event_type.clone(), stream: ev.stream.clone(), data: ev.data.clone(), seq: ev.seq });
            },
            LiveAction::SendAndEnd => {
                out.push(Frame { event_type: ev.event_type.clone(), stream: ev.stream.clone(), data: ev.data.clone(), seq: ev.seq });
                self.phase = StreamPhase::Ended;
            },
        }
        proof {
            assert(frames_view(out@) =~= stream_step(old(self)@, StreamInput::Live(ev@)).1);
        }
        out
    }
}

/// What a replay sends: the numbers seen before stay seen, every number
/// sent is seen after it, a replay that skips seen numbers sends none of
/// them, and an exit event comes only last, when the replay ends.
proof fn lemma_replay_facts(seen: Seq<i64>, evs: Seq<EventRowView>, skip: bool)
    ensures
        ({
            let r = replay(seen, evs, skip);
            &&& forall|x: i64| seen.contains(x) ==> r.1.contains(x)
            &&& forall|k: int| 0 <= k < r.0.len() ==> r.1.contains(#[trigger] r.0[k].seq)
            &&& skip ==> forall|k: int| 0 <= k < r.0.len() ==> !seen.contains(#[trigger] r.0[k].seq)
            &&& forall|k: int| 0 <= k < r.0.len() - 1 ==> (#[trigger] r.0[k]).event_type != "exit"@
            &&& r.2 == (r.0.len() > 0 && r.0.last().event_type == "exit"@)
        }),
    decreases evs.len(),
{
    if evs.len() > 0 {
        let e = evs[0];
        let rest = evs.drop_first();
        if skip && seen.contains(e.seq) {
            lemma_replay_facts(seen, rest, skip);
        } else if e.event_type == "exit"@ {
            let r = replay(seen, evs, skip);
            assert(r.0 =~= seq![e]);
            assert forall|x: i64| seen.contains(x) implies r.1.contains(x) by {
                let i = choose|i: int| 0 <= i < seen.len() && seen[i] == x;
                assert(seen.push(e.seq)[i] == x);
            }
            assert(seen.push(e.seq)[seen.len() as int] == e.seq);
        } else {
            let s1 = seen.push(e.seq);
            lemma_replay_facts(s1, rest, skip);
            let r1 = replay(s1, rest, skip);
            let r = replay(seen, evs, skip);
            assert(r.0 =~= seq![e] + r1.0);
            assert forall|x: i64| seen.contains(x) implies r.1.contains(x) by {
                let i = choose|i: int| 0 <= i < seen.len() && seen[i] == x;
                assert(s1[i] == x);
                assert(s1.contains(x));
            }
            assert(s1[seen.len() as int] == e.seq);
            assert(s1.contains(e.seq));
            assert forall|k: int| 0 <= k < r.0.len() implies r.1.contains(#[trigger] r.0[k].seq) by {
                if k > 0 {
                    assert(r.0[k] == r1.0[k - 1]);
                } else {
                    assert(r.0[0] == e);
                }
            }
            if skip {
                assert forall|k: int| 0 <= k < r.0.len() implies !seen.contains(#[trigger] r.0[k].seq) by {
                    if k > 0 {
                        assert(r.0[k] == r1.0[k - 1]);
                        if seen.contains(r.0[k].seq) {
                            let i = choose|i: int| 0 <= i < seen.len() && seen[i] == r.0[k].seq;
                            assert(s1[i] == r.0[k].seq);
                        }
                    }
                }
            }
            assert forall|k: int| 0 <= k < r.0.len() - 1 implies (#[trigger] r.0[k]).event_type != "exit"@ by {
                if k > 0 {
                    assert(r.0[k] == r1.0[k - 1]);
                }
            }
            if r1.0.len() > 0 {
                assert(r.0.last() == r1.0.last());
            }
        }
    }
}

/// The events that a stream sends for a run of inputs, one after
/// another, and its state after them.
pub open spec fn stream_run(s: ExecStreamView, inputs: Seq<StreamInput>) -> (ExecStreamView, Seq<FrameView>)
    decreases inputs.len(),
{
    if inputs.len() == 0 {
        (s, Seq::empty())
    } else {
        let st = stream_step(s, inputs[0]);
        let rest = stream_run(st.0, inputs.drop_first());
        (rest.0, st.1 + rest.1)
    }
}

/// An ended stream stays ended and sends nothing more, whatever comes.
pub proof fn law_ended_stream_sends_nothing(s: ExecStreamView, inputs: Seq<StreamInput>)
    requires
        s.phase == StreamPhase::Ended,
    ensures
        stream_run(s, inputs) == (s, Seq::<FrameView>::empty()),
        forall|i: StreamInput| #[trigger] stream_step(s, i) == (s, Seq::<FrameView>::empty(), false),
    decreases inputs.len(),
{
    if inputs.len() > 0 {
        law_ended_stream_sends_nothing(s, inputs.drop_first());
        assert(Seq::<FrameView>::empty() + Seq::<FrameView>::empty() =~= Seq::<FrameView>::empty());
    }
}

proof fn lemma_step_exit_last(s: ExecStreamView, i: StreamInput)
    ensures
        ({
            let st = stream_step(s, i);
            forall|k: int| 0 <= k < st.1.len() && (#[trigger] st.1[k]).event_type == "exit"@
                ==> k == st.1.len() - 1 && st.0.phase == StreamPhase::Ended
        }),
{
    match i {
        StreamInput::Stored(evs) => {
            lemma_replay_facts(s.seen, evs, false);
        },
        StreamInput::Finished(late, code) => {
            lemma_replay_facts(s.seen, late, true);
            let r = replay(s.seen, late, true);
            let st = stream_step(s, i);
            assert forall|k: int| 0 <= k < st.1.len() && (#[trigger] st.1[k]).event_type == "exit"@
                implies k == st.1.len() - 1 by {
                if k < r.0.len() {
                    assert(st.1[k] == row_frame(r.0[k]));
                    if k < r.0.len() - 1 {
                        assert(r.0[k].event_type != "exit"@);
                    }
                    assert(r.2);
                }
            }
        },
        StreamInput::Running => {},
        StreamInput::Live(ev) => {},
    }
}

/// A stream ends at its first exit event: whatever comes to it, in any
/// order, an exit event it sends is the last event it sends.
pub proof fn law_stream_ends_at_exit(s: ExecStreamView, inputs: Seq<StreamInput>)
    ensures
        ({
            let f = stream_run(s, inputs).1;
            forall|k: int| 0 <= k < f.len() && (#[trigger] f[k]).event_type == "exit"@ ==> k == f.len() - 1
        }),
    decreases inputs.len(),
{
    if inputs.len() > 0 {
        let st = stream_step(s, inputs[0]);
        let rest = stream_run(st.0, inputs.drop_first());
        law_stream_ends_at_exit(st.0, inputs.drop_first());
        lemma_step_exit_last(s, inputs[0]);
        let f = stream_run(s, inputs).1;
        assert(f == st.1 + rest.1);
        assert forall|k: int| 0 <= k < f.len() && (#[trigger] f[k]).event_type == "exit"@ implies k == f.len() - 1 by {
            if k < st.1.len() {
                assert(f[k] == st.1[k]);
                law_ended_stream_sends_nothing(st.0, inputs.drop_first());
            } else {
                assert(f[k] == rest.1[k - st.1.len()]);
            }
        }
    }
}

/// No number is sent twice across the phases: the numbers noted stay
/// noted; every number sent from the store is noted; and what a finished
/// execution or a live event sends has a number not sent before.
pub proof fn law_stream_sends_no_number_twice(s: ExecStreamView, i: StreamInput)
    ensures
        ({
            let st = stream_step(s, i);
            &&& forall|x: i64| s.seen.contains(x) ==> st.0.seen.contains(x)
            &&& i is Stored ==> forall|k: int| 0 <= k < st.1.len() ==> st.0.seen.contains(#[trigger] st.1[k].seq)
            &&& (i is Finished || i is Live) ==> forall|k: int| 0 <= k < st.1.len() ==> !s.seen.contains(#[trigger] st.1[k].seq)
        }),
{
    match i {
        StreamInput::Stored(evs) => {
            lemma_replay_facts(s.seen, evs, false);
            let r = replay(s.seen, evs, false);
            let st = stream_step(s, i);
            if s.phase == StreamPhase::Replay {
                assert forall|k: int| 0 <= k < st.1.len() implies st.0.seen.contains(#[trigger] st.1[k].seq) by {
                    assert(st.1[k] == row_frame(r.0[k]));
                }
            }
        },
        StreamInput::Finished(late, code) => {
            lemma_replay_facts(s.seen, late, true);
            let r = replay(s.seen, late, true);
            let st = stream_step(s, i);
            if s.phase == StreamPhase::Check {
                assert forall|k: int| 0 <= k < st.1.len() implies !s.seen.contains(#[trigger] st.1[k].seq) by {
                    if k < r.0.len() {
                        assert(st.1[k] == row_frame(r.0[k]));
                    } else {
                        crate::routes::lemma_max_seq_bound(r.1);
                        lemma_max_seq_above(r.1);
                        if s.seen.contains(st.1[k].seq) {
                            assert(r.1.contains(st.1[k].seq));
                            let j = choose|j: int| 0 <= j < r.1.len() && r.1[j] == st.1[k].seq;
                            assert(r.1[j] <= crate::routes::max_seq(r.1));
                        }
                    }
                }
            }
        },
        StreamInput::Running => {},
        StreamInput::Live(ev) => {},
    }
}

/// One past the greatest number of a sequence is none of its numbers.
proof fn lemma_max_seq_above(s: Seq<i64>)
    ensures
        forall|k: int| 0 <= k < s.len() ==> (#[trigger] s[k]) <= crate::routes::max_seq(s),
    decreases s.len(),
{
    if s.len() > 0 {
        lemma_max_seq_above(s.drop_last());
        assert forall|k: int| 0 <= k < s.len() implies (#[trigger] s[k]) <= crate::routes::max_seq(s) by {
            if k < s.len() - 1 {
                assert(s[k] == s.drop_last()[k]);
            }
        }
    }
}

} // verus!
