//! The exec event bus: subscribers of an execution receive each event
//! published for it, in order, and then the end of the stream.
use vstd::prelude::*;
use crate::models::opt_view;
use crate::store::duplicate_opt;
use crate::text::str_eq;
use crate::seqs::{first_index, lemma_first_index_at, lemma_first_index_none};

verus! {

/// An output event of an execution.
#[derive(Debug, Clone)]
pub struct Event {
    pub seq: i64,
    /// "log" or "exit".
    pub event_type: String,
    pub data: String,
    /// "stdout" or "stderr".
    pub stream: Option<String>,
}

/// The content of an event.
pub struct EventView {
    pub seq: i64,
    pub event_type: Seq<char>,
    pub data: Seq<char>,
    pub stream: Option<Seq<char>>,
}

impl View for Event {
    type V = EventView;

    open spec fn view(&self) -> EventView {
        EventView { seq: self.seq, event_type: self.event_type@, data: self.data@, stream: opt_view(self.stream) }
    }
}

impl Event {
    /// A copy of the event.
    pub fn duplicate(&self) -> (r: Event)
        ensures
            r@ == self@,
    {
        Event {
            seq: self.seq,
            event_type: self.event_type.clone(),
            data: self.data.clone(),
            stream: duplicate_opt(&self.stream),
        }
    }
}

/// What a subscriber has waiting: an event, the end of the stream, or
/// nothing yet.
pub enum Received {
    Event(Event),
    End,
    Pending,
}

/// The pending deliveries of one subscriber: `Some` holds an event,
/// `None` marks the end of the stream.
struct Mailbox {
    id: u64,
    exec_id: String,
    queue: Vec<Option<Event>>,
    attached: bool,
}

/// The content of a mailbox.
pub struct MailboxView {
    pub id: u64,
    pub exec_id: Seq<char>,
    pub queue: Seq<Option<EventView>>,
    /// Whether the mailbox still receives the execution's events.
    pub attached: bool,
}

pub open spec fn opt_event_view(e: Option<Event>) -> Option<EventView> {
    match e {
        Some(x) => Some(x@),
        None => None,
    }
}

impl View for Mailbox {
    type V = MailboxView;

    closed spec fn view(&self) -> MailboxView {
        MailboxView {
            id: self.id,
            exec_id: self.exec_id@,
            queue: self.queue@.map_values(|e: Option<Event>| opt_event_view(e)),
            attached: self.attached,
        }
    }
}

/// The content of the bus.
pub struct BusView {
    pub mailboxes: Seq<MailboxView>,
    pub next_id: u64,
}

/// In-memory publish/subscribe for the events of executions.
pub struct EventBus {
    mailboxes: Vec<Mailbox>,
    next_id: u64,
}

impl View for EventBus {
    type V = BusView;

    closed spec fn view(&self) -> BusView {
        BusView { mailboxes: self.mailboxes@.map_values(|m: Mailbox| m@), next_id: self.next_id }
    }
}

/// A subscription to the events of one execution.
pub struct Subscription {
    id: u64,
    exec_id: String,
}

impl Subscription {
    /// The identifier of the subscription's mailbox.
    pub closed spec fn sub_id(&self) -> u64 {
        self.id
    }

    /// The execution it follows.
    pub closed spec fn exec_of(&self) -> Seq<char> {
        self.exec_id@
    }
}

/// Whether a mailbox belongs to a subscription.
pub open spec fn mailbox_has_id(id: u64) -> spec_fn(MailboxView) -> bool {
    |m: MailboxView| m.id == id
}

/// The bus after an event is published: each attached mailbox of the
/// execution gets the event at the back.
pub open spec fn published(b: BusView, exec_id: Seq<char>, ev: EventView) -> BusView {
    BusView {
        mailboxes: b.mailboxes.map_values(|m: MailboxView| if m.attached && m.exec_id == exec_id {
            MailboxView { queue: m.queue.push(Some(ev)), ..m }
        } else {
            m
        }),
        ..b
    }
}

/// The bus after an execution's stream is finished: each attached
/// mailbox of the execution gets the end marker and is detached.
pub open spec fn finished(b: BusView, exec_id: Seq<char>) -> BusView {
    BusView {
        mailboxes: b.mailboxes.map_values(|m: MailboxView| if m.attached && m.exec_id == exec_id {
            MailboxView { queue: m.queue.push(None), attached: false, ..m }
        } else {
            m
        }),
        ..b
    }
}

/// The bus after a subscription to an execution is made.
pub open spec fn subscribed(b: BusView, exec_id: Seq<char>) -> BusView {
    BusView {
        mailboxes: b.mailboxes.push(MailboxView { id: b.next_id, exec_id, queue: Seq::empty(), attached: true }),
        next_id: (b.next_id + 1) as u64,
    }
}

/// What receiving gives, as content, and the bus after it.
pub enum ReceivedView {
    Event(EventView),
    End,
    Pending,
}

pub open spec fn received_view(r: Received) -> ReceivedView {
    match r {
        Received::Event(e) => ReceivedView::Event(e@),
        Received::End => ReceivedView::End,
        Received::Pending => ReceivedView::Pending,
    }
}

/// Receiving from a mailbox: the front of its queue, the end once the
/// mailbox is detached and empty or gone, and nothing yet otherwise.
pub open spec fn receive(b: BusView, id: u64) -> (BusView, ReceivedView) {
    match first_index(b.mailboxes, mailbox_has_id(id)) {
        None => (b, ReceivedView::End),
        Some(i) => {
            let m = b.mailboxes[i];
            if m.queue.len() > 0 {
                let nb = BusView {
                    mailboxes: b.mailboxes.update(i, MailboxView { queue: m.queue.drop_first(), ..m }),
                    ..b
                };
                match m.queue[0] {
                    Some(e) => (nb, ReceivedView::Event(e)),
                    None => (nb, ReceivedView::End),
                }
            } else if m.attached {
                (b, ReceivedView::Pending)
            } else {
                (b, ReceivedView::End)
            }
        },
    }
}

/// The bus after a subscription is dropped.
pub open spec fn unsubscribed(b: BusView, id: u64) -> BusView {
    BusView { mailboxes: crate::seqs::keep(b.mailboxes, mailbox_other_than(id)), ..b }
}

/// Whether a mailbox has an id other than the given one.
pub open spec fn mailbox_other_than(id: u64) -> spec_fn(MailboxView) -> bool {
    |m: MailboxView| m.id != id
}

impl Mailbox {
    fn duplicate(&self) -> (r: Mailbox)
        ensures
            r@ == self@,
    {
        let mut q: Vec<Option<Event>> = Vec::new();
        let mut i: usize = 0;
        while i < self.queue.len()
            invariant
                i <= self.queue@.len(),
                q@.map_values(|e: Option<Event>| opt_event_view(e)) == self.queue@.subrange(0, i as int).map_values(|e: Option<Event>| opt_event_view(e)),
            decreases self.queue@.len() - i,
        {
            let item = match &self.queue[i] {
                Some(e) => Some(e.duplicate()),
                None => None,
            };
            let ghost before = q@;
            q.push(item);
            proof {
                assert(q@.map_values(|e: Option<Event>| opt_event_view(e)) =~= before.map_values(|e: Option<Event>| opt_event_view(e)).push(opt_event_view(self.queue@[i as int])));
                assert(self.queue@.subrange(0, i + 1).map_values(|e: Option<Event>| opt_event_view(e)) =~= self.queue@.subrange(0, i as int).map_values(|e: Option<Event>| opt_event_view(e)).push(opt_event_view(self.queue@[i as int])));
            }
            i = i + 1;
        }
        proof {
            assert(self.queue@.subrange(0, self.queue@.len() as int) =~= self.queue@);
        }
        Mailbox { id: self.id, exec_id: self.exec_id.clone(), queue: q, attached: self.attached }
    }
}

impl EventBus {
    /// An empty bus.
    pub fn new() -> (b: EventBus)
        ensures
            b@.mailboxes.len() == 0,
            b@.next_id == 0,
    {
        let b = EventBus { mailboxes: Vec::new(), next_id: 0 };
        proof {
            assert(b@.mailboxes =~= Seq::empty());
        }
        b
    }

    fn find(&self, id: u64) -> (r: Option<usize>)
        ensures
            match r {
                Some(i) => first_index(self@.mailboxes, mailbox_has_id(id)) == Some(i as int)
                    && i < self.mailboxes@.len() && self@.mailboxes[i as int] == self.mailboxes@[i as int]@,
                None => first_index(self@.mailboxes, mailbox_has_id(id)) is None,
            },
    {
        let mut i: usize = 0;
        while i < self.mailboxes.len()
            invariant
                i <= self.mailboxes@.len(),
                self@.mailboxes.len() == self.mailboxes@.len(),
                forall|j: int| 0 <= j < i ==> !mailbox_has_id(id)(#[trigger] self@.mailboxes[j]),
            decreases self.mailboxes@.len() - i,
        {
            if self.mailboxes[i].id == id {
                proof {
                    assert(self@.mailboxes[i as int] == self.mailboxes@[i as int]@);
                    lemma_first_index_at(self@.mailboxes, mailbox_has_id(id), i as int);
                }
                return Some(i);
            }
            proof {
                assert(self@.mailboxes[i as int] == self.mailboxes@[i as int]@);
            }
            i = i + 1;
        }
        proof {
            lemma_first_index_none(self@.mailboxes, mailbox_has_id(id));
        }
        None
    }

    /// Publishes an event to every subscriber of the execution.
    pub fn publish(&mut self, exec_id: &str, event: Event)
        ensures
            final(self)@ == published(old(self)@, exec_id@, event@),
    {
        let ghost old_view = self@;
        let ghost f = |m: MailboxView| if m.attached && m.exec_id == exec_id@ {
            MailboxView { queue: m.queue.push(Some(event@)), ..m }
        } else {
            m
        };
        let mut out: Vec<Mailbox> = Vec::new();
        let mut i: usize = 0;
        while i < self.mailboxes.len()
            invariant
                i <= self.mailboxes@.len(),
                self@ == old_view,
                out@.len() == i,
                forall|j: int| 0 <= j < i ==> (#[trigger] out@[j])@ == f(old_view.mailboxes[j]),
                f == (|m: MailboxView| if m.attached && m.exec_id == exec_id@ {
                    MailboxView { queue: m.queue.push(Some(event@)), ..m }
                } else {
                    m
                }),
            decreases self.mailboxes@.len() - i,
        {
            let mut m = self.mailboxes[i].duplicate();
            proof {
                assert(old_view.mailboxes[i as int] == self.mailboxes@[i as int]@);
            }
            if m.attached && str_eq(m.exec_id.as_str(), exec_id) {
                let ghost before = m.queue@;
                m.queue.push(Some(event.duplicate()));
                proof {
                    assert(m.queue@.map_values(|e: Option<Event>| opt_event_view(e)) =~= before.map_values(|e: Option<Event>| opt_event_view(e)).push(Some(event@)));
                }
            }
            out.push(m);
            i = i + 1;
        }
        proof {
            assert(out@.map_values(|m: Mailbox| m@) =~= published(old_view, exec_id@, event@).mailboxes);
        }
        self.mailboxes = out;
    }

    /// Ends the stream of an execution for every subscriber of it.
    pub fn finish(&mut self, exec_id: &str)
        ensures
            final(self)@ == finished(old(self)@, exec_id@),
    {
        let ghost old_view = self@;
        let ghost f = |m: MailboxView| if m.attached && m.exec_id == exec_id@ {
            MailboxView { queue: m.queue.push(None), attached: false, ..m }
        } else {
            m
        };
        let mut out: Vec<Mailbox> = Vec::new();
        let mut i: usize = 0;
        while i < self.mailboxes.len()
            invariant
                i <= self.mailboxes@.len(),
                self@ == old_view,
                out@.len() == i,
                forall|j: int| 0 <= j < i ==> (#[trigger] out@[j])@ == f(old_view.mailboxes[j]),
                f == (|m: MailboxView| if m.attached && m.exec_id == exec_id@ {
                    MailboxView { queue: m.queue.push(None), attached: false, ..m }
                } else {
                    m
                }),
            decreases self.mailboxes@.len() - i,
        {
            let mut m = self.mailboxes[i].duplicate();
            proof {
                assert(old_view.mailboxes[i as int] == self.mailboxes@[i as int]@);
            }
            if m.attached && str_eq(m.exec_id.as_str(), exec_id) {
                let ghost before = m.queue@;
                m.queue.push(None);
                m.attached = false;
                proof {
                    assert(m.queue@.map_values(|e: Option<Event>| opt_event_view(e)) =~= before.map_values(|e: Option<Event>| opt_event_view(e)).push(None));
                }
            }
            out.push(m);
            i = i + 1;
        }
        proof {
            assert(out@.map_values(|m: Mailbox| m@) =~= finished(old_view, exec_id@).mailboxes);
        }
        self.mailboxes = out;
    }

    /// Subscribes to the events of an execution; the subscription receives
    /// what is published from now on. Identifiers are handed out in turn,
    /// so the bus must not have handed out the last one.
    pub fn subscribe(&mut self, exec_id: &str) -> (sub: Subscription)
        requires
            old(self)@.next_id < u64::MAX,
        ensures
            final(self)@ == subscribed(old(self)@, exec_id@),
            sub.sub_id() == old(self)@.next_id,
            sub.exec_of() == exec_id@,
    {
        let id = self.next_id;
        let m = Mailbox { id, exec_id: exec_id.to_owned(), queue: Vec::new(), attached: true };
        let ghost old_boxes = self.mailboxes@;
        proof {
            assert(m@.queue =~= Seq::empty());
        }
        let ghost mv = m@;
        self.mailboxes.push(m);
        self.next_id = id + 1;
        proof {
            assert(self@.mailboxes =~= old_boxes.map_values(|m: Mailbox| m@).push(mv));
        }
        Subscription { id, exec_id: exec_id.to_owned() }
    }

    /// Whether another subscription can be handed out.
    pub fn can_subscribe(&self) -> (r: bool)
        ensures
            r == (self@.next_id < u64::MAX),
    {
        self.next_id < u64::MAX
    }

    /// Drops a subscription: its mailbox leaves the bus.
    pub fn unsubscribe(&mut self, sub: Subscription)
        ensures
            final(self)@ == unsubscribed(old(self)@, sub.sub_id()),
    {
        let ghost old_view = self@;
        let ghost p = mailbox_other_than(sub.id);
        let mut out: Vec<Mailbox> = Vec::new();
        let mut i: usize = 0;
        proof {
            assert(crate::seqs::keep(old_view.mailboxes.take(0), p) =~= Seq::empty());
            assert(out@.map_values(|m: Mailbox| m@) =~= Seq::empty());
        }
        while i < self.mailboxes.len()
            invariant
                i <= self.mailboxes@.len(),
                self@ == old_view,
                p == mailbox_other_than(sub.id),
                out@.map_values(|m: Mailbox| m@) == crate::seqs::keep(old_view.mailboxes.take(i as int), p),
            decreases self.mailboxes@.len() - i,
        {
            proof {
                crate::seqs::lemma_keep_take_succ(old_view.mailboxes, p, i as int);
                assert(old_view.mailboxes[i as int] == self.mailboxes@[i as int]@);
            }
            if self.mailboxes[i].id != sub.id {
                let m = self.mailboxes[i].duplicate();
                let ghost before = out@;
                let ghost mv = m@;
                out.push(m);
                proof {
                    assert(out@.map_values(|m: Mailbox| m@) =~= before.map_values(|m: Mailbox| m@).push(mv));
                }
            }
            i = i + 1;
        }
        proof {
            assert(old_view.mailboxes.take(self.mailboxes@.len() as int) =~= old_view.mailboxes);
        }
        self.mailboxes = out;
    }
}

impl Subscription {
    /// Receives what the subscription has waiting: the next event, the end
    /// of the stream, or nothing yet.
    pub fn recv(&self, bus: &mut EventBus) -> (r: Received)
        ensures
            (final(bus)@, received_view(r)) == receive(old(bus)@, self.sub_id()),
    {
        match bus.find(self.id) {
            None => Received::End,
            Some(i) => {
                let ghost old_view = bus@;
                let mut m = bus.mailboxes[i].duplicate();
                if m.queue.len() > 0 {
                    let ghost before = m.queue@;
                    let front = m.queue.remove(0);
                    proof {
                        assert(m.queue@.map_values(|e: Option<Event>| opt_event_view(e)) =~= before.map_values(|e: Option<Event>| opt_event_view(e)).drop_first());
                    }
                    let ghost mv = m@;
                    bus.mailboxes.set(i, m);
                    proof {
                        assert(bus@.mailboxes =~= old_view.mailboxes.update(i as int, mv));
                    }
                    match front {
                        Some(e) => Received::Event(e),
                        None => Received::End,
                    }
                } else if m.attached {
                    Received::Pending
                } else {
                    Received::End
                }
            },
        }
    }
}

impl Default for EventBus {
    fn default() -> (b: EventBus)
        ensures
            b@.mailboxes.len() == 0,
            b@.next_id == 0,
    {
        EventBus::new()
    }
}

/// The bus is well formed: every mailbox id is below the next id, and the
/// ids increase along the mailboxes.
pub open spec fn bus_wf(b: BusView) -> bool {
    &&& forall|i: int| 0 <= i < b.mailboxes.len() ==> (#[trigger] b.mailboxes[i]).id < b.next_id
    &&& forall|i: int, j: int| 0 <= i < j < b.mailboxes.len() ==> (#[trigger] b.mailboxes[i]).id < (#[trigger] b.mailboxes[j]).id
}

/// The bus after a list of events is published in turn.
pub open spec fn publish_all(b: BusView, exec_id: Seq<char>, es: Seq<EventView>) -> BusView
    decreases es.len(),
{
    if es.len() == 0 {
        b
    } else {
        publish_all(published(b, exec_id, es[0]), exec_id, es.drop_first())
    }
}

/// What receiving `n` times in a row gives.
pub open spec fn receive_n(b: BusView, id: u64, n: nat) -> Seq<ReceivedView>
    decreases n,
{
    if n == 0 {
        Seq::empty()
    } else {
        seq![receive(b, id).1] + receive_n(receive(b, id).0, id, (n - 1) as nat)
    }
}

/// A queued delivery as what receiving it gives.
pub open spec fn delivery(d: Option<EventView>) -> ReceivedView {
    match d {
        Some(e) => ReceivedView::Event(e),
        None => ReceivedView::End,
    }
}

/// Each mailbox after a publication: those attached to the execution get
/// the event at the back; the others, and every mailbox's id, execution
/// and attachment, are unchanged.
proof fn lemma_published_at(b: BusView, x: Seq<char>, e: EventView)
    ensures
        published(b, x, e).mailboxes.len() == b.mailboxes.len(),
        published(b, x, e).next_id == b.next_id,
        forall|i: int| 0 <= i < b.mailboxes.len() ==> #[trigger] published(b, x, e).mailboxes[i]
            == if b.mailboxes[i].attached && b.mailboxes[i].exec_id == x {
                (MailboxView { queue: b.mailboxes[i].queue.push(Some(e)), ..b.mailboxes[i] })
            } else {
                b.mailboxes[i]
            },
{
}

proof fn lemma_publish_all_at(b: BusView, x: Seq<char>, es: Seq<EventView>, i: int)
    requires
        0 <= i < b.mailboxes.len(),
        b.mailboxes[i].attached,
        b.mailboxes[i].exec_id == x,
    ensures
        publish_all(b, x, es).mailboxes.len() == b.mailboxes.len(),
        publish_all(b, x, es).next_id == b.next_id,
        publish_all(b, x, es).mailboxes[i]
            == (MailboxView { queue: b.mailboxes[i].queue + es.map_values(|e: EventView| Some(e)), ..b.mailboxes[i] }),
        forall|k: int| 0 <= k < b.mailboxes.len() ==> (#[trigger] publish_all(b, x, es).mailboxes[k]).id == b.mailboxes[k].id,
    decreases es.len(),
{
    if es.len() == 0 {
        assert(b.mailboxes[i].queue + es.map_values(|e: EventView| Some(e)) =~= b.mailboxes[i].queue);
    } else {
        let b1 = published(b, x, es[0]);
        lemma_published_at(b, x, es[0]);
        lemma_publish_all_at(b1, x, es.drop_first(), i);
        assert(b1.mailboxes[i].queue + es.drop_first().map_values(|e: EventView| Some(e))
            =~= b.mailboxes[i].queue + es.map_values(|e: EventView| Some(e)));
        assert forall|k: int| 0 <= k < b.mailboxes.len() implies (#[trigger] publish_all(b, x, es).mailboxes[k]).id == b.mailboxes[k].id by {
            assert(b1.mailboxes[k].id == b.mailboxes[k].id);
        }
    }
}

/// Receiving from a mailbox found at a position takes its queue from the
/// front, one delivery at a time.
proof fn lemma_receive_n(b: BusView, id: u64, i: int, n: nat)
    requires
        0 <= i < b.mailboxes.len(),
        b.mailboxes[i].id == id,
        forall|k: int| 0 <= k < i ==> (#[trigger] b.mailboxes[k]).id != id,
        n <= b.mailboxes[i].queue.len(),
    ensures
        receive_n(b, id, n) == b.mailboxes[i].queue.take(n as int).map_values(|d: Option<EventView>| delivery(d)),
    decreases n,
{
    let q = b.mailboxes[i].queue;
    if n == 0 {
        assert(q.take(0).map_values(|d: Option<EventView>| delivery(d)) =~= Seq::<ReceivedView>::empty());
    } else {
        lemma_first_index_at(b.mailboxes, mailbox_has_id(id), i);
        let m = b.mailboxes[i];
        let b1 = receive(b, id).0;
        assert(b1.mailboxes == b.mailboxes.update(i, MailboxView { queue: q.drop_first(), ..m }));
        assert forall|k: int| 0 <= k < i implies (#[trigger] b1.mailboxes[k]).id != id by {
            assert(b1.mailboxes[k] == b.mailboxes[k]);
        }
        lemma_receive_n(b1, id, i, (n - 1) as nat);
        assert(receive(b, id).1 == delivery(q[0]));
        assert(seq![delivery(q[0])] + q.drop_first().take(n - 1).map_values(|d: Option<EventView>| delivery(d))
            =~= q.take(n as int).map_values(|d: Option<EventView>| delivery(d)));
    }
}

/// A subscriber receives every event published for its execution after it
/// subscribed, in the order they were published, and then the end of the
/// stream once the execution is finished.
pub proof fn law_delivery_in_order(b: BusView, x: Seq<char>, es: Seq<EventView>)
    requires
        bus_wf(b),
        b.next_id < u64::MAX,
    ensures
        receive_n(finished(publish_all(subscribed(b, x), x, es), x), b.next_id, es.len() + 1)
            == es.map_values(|e: EventView| ReceivedView::Event(e)).push(ReceivedView::End),
{
    let id = b.next_id;
    let n = b.mailboxes.len() as int;
    let b1 = subscribed(b, x);
    let b2 = publish_all(b1, x, es);
    let b3 = finished(b2, x);
    assert(b1.mailboxes[n].id == id && b1.mailboxes[n].attached && b1.mailboxes[n].exec_id == x);
    lemma_publish_all_at(b1, x, es, n);
    let q = Seq::<Option<EventView>>::empty() + es.map_values(|e: EventView| Some(e));
    assert(b2.mailboxes[n].queue == q);
    assert(b3.mailboxes[n].queue == q.push(None));
    assert forall|k: int| 0 <= k < n implies (#[trigger] b3.mailboxes[k]).id != id by {
        assert(b3.mailboxes[k].id == b2.mailboxes[k].id);
        assert(b2.mailboxes[k].id == b1.mailboxes[k].id);
        assert(b1.mailboxes[k] == b.mailboxes[k]);
    }
    lemma_receive_n(b3, id, n, (es.len() + 1) as nat);
    assert(q.push(None).take(es.len() + 1 as int) =~= q.push(None));
    assert(q.push(None).map_values(|d: Option<EventView>| delivery(d))
        =~= es.map_values(|e: EventView| ReceivedView::Event(e)).push(ReceivedView::End));
}

/// Publishing or finishing an execution that nobody follows changes
/// nothing.
pub proof fn law_no_subscribers_no_change(b: BusView, x: Seq<char>, e: EventView)
    requires
        forall|i: int| 0 <= i < b.mailboxes.len() ==> !((#[trigger] b.mailboxes[i]).attached && b.mailboxes[i].exec_id == x),
    ensures
        published(b, x, e) == b,
        finished(b, x) == b,
{
    assert(published(b, x, e).mailboxes =~= b.mailboxes);
    assert(finished(b, x).mailboxes =~= b.mailboxes);
}

/// Publishing or finishing one execution leaves the subscribers of every
/// other execution as they were.
pub proof fn law_other_executions_untouched(b: BusView, x: Seq<char>, e: EventView, i: int)
    requires
        0 <= i < b.mailboxes.len(),
        b.mailboxes[i].exec_id != x,
    ensures
        published(b, x, e).mailboxes[i] == b.mailboxes[i],
        finished(b, x).mailboxes[i] == b.mailboxes[i],
{
}

/// Every subscriber of an execution gets each published event, and each
/// is told of the end once the execution is finished.
pub proof fn law_every_subscriber_served(b: BusView, x: Seq<char>, e: EventView, i: int)
    requires
        0 <= i < b.mailboxes.len(),
        b.mailboxes[i].exec_id == x,
        b.mailboxes[i].attached,
    ensures
        published(b, x, e).mailboxes[i].queue == b.mailboxes[i].queue.push(Some(e)),
        finished(b, x).mailboxes[i].queue == b.mailboxes[i].queue.push(None),
        !finished(b, x).mailboxes[i].attached,
{
}

/// A dropped subscription's mailbox is gone: receiving from it gives the end.
pub proof fn law_unsubscribed_receives_end(b: BusView, id: u64)
    ensures
        receive(unsubscribed(b, id), id).1 == ReceivedView::End,
{
    let p = mailbox_other_than(id);
    let u = unsubscribed(b, id);
    crate::seqs::lemma_keep_elements(b.mailboxes, p);
    assert forall|k: int| 0 <= k < u.mailboxes.len() implies !mailbox_has_id(id)(#[trigger] u.mailboxes[k]) by {
        assert(p(u.mailboxes[k]));
    }
    lemma_first_index_none(u.mailboxes, mailbox_has_id(id));
}

/// Every operation keeps the bus well formed.
pub proof fn law_bus_wf_kept(b: BusView, x: Seq<char>, e: EventView, id: u64)
    requires
        bus_wf(b),
    ensures
        bus_wf(published(b, x, e)),
        bus_wf(finished(b, x)),
        bus_wf(unsubscribed(b, id)),
        bus_wf(receive(b, id).0),
        b.next_id < u64::MAX ==> bus_wf(subscribed(b, x)),
{
    let p = mailbox_other_than(id);
    let u = unsubscribed(b, id);
    crate::seqs::lemma_keep_elements(b.mailboxes, p);
    lemma_unsubscribed_increasing(b.mailboxes, id);
    assert forall|i: int| 0 <= i < u.mailboxes.len() implies (#[trigger] u.mailboxes[i]).id < u.next_id by {
        assert(b.mailboxes.contains(u.mailboxes[i]));
    }
    let r = receive(b, id).0;
    if let Some(i) = first_index(b.mailboxes, mailbox_has_id(id)) {
        crate::seqs::lemma_first_index(b.mailboxes, mailbox_has_id(id));
        assert forall|k: int| 0 <= k < r.mailboxes.len() implies (#[trigger] r.mailboxes[k]).id == b.mailboxes[k].id by {
        }
    }
}

proof fn lemma_unsubscribed_increasing(ms: Seq<MailboxView>, id: u64)
    requires
        forall|i: int, j: int| 0 <= i < j < ms.len() ==> (#[trigger] ms[i]).id < (#[trigger] ms[j]).id,
    ensures
        forall|i: int, j: int| 0 <= i < j < crate::seqs::keep(ms, mailbox_other_than(id)).len()
            ==> (#[trigger] crate::seqs::keep(ms, mailbox_other_than(id))[i]).id
                < (#[trigger] crate::seqs::keep(ms, mailbox_other_than(id))[j]).id,
    decreases ms.len(),
{
    let p = mailbox_other_than(id);
    if ms.len() > 0 {
        let d = ms.drop_last();
        lemma_unsubscribed_increasing(d, id);
        crate::seqs::lemma_keep_elements(d, p);
        let kd = crate::seqs::keep(d, p);
        if p(ms.last()) {
            let k = kd.push(ms.last());
            assert forall|i: int, j: int| 0 <= i < j < k.len() implies (#[trigger] k[i]).id < (#[trigger] k[j]).id by {
                if j == kd.len() {
                    assert(d.contains(kd[i]));
                    let w = choose|w: int| 0 <= w < d.len() && d[w] == kd[i];
                    assert(ms[w] == d[w]);
                    assert(ms[ms.len() - 1] == ms.last());
                } else {
                    assert(k[i] == kd[i] && k[j] == kd[j]);
                }
            }
        }
    }
}

} // verus!
