//! Laws of the store: a created box is found again, a deleted box and
//! its executions are gone, and listings come in their documented order
//! with each wanted row once.
use vstd::prelude::*;
use crate::seqs::{
    keep, first_index, order_by, ordered, strict_weak_order, lemma_first_index, lemma_first_index_at,
    lemma_first_index_none, lemma_keep_elements, lemma_order_by_ordered, lemma_order_by_multiset,
};
use crate::store::{
    BoxRowView, ExecRowView, EventRowView, StoreView, lookup_box, box_by_id, box_has_id, create_box_conflict,
    after_delete_box, box_id_other_than, status_filter, box_newer_first, exec_newer_first, event_seq_first,
    exec_of_box, event_wanted, exec_has_id, exec_by_id, finish_execs, finished_status, with_event,
};
use crate::text::{seq_lt, lemma_seq_lt_irreflexive, lemma_seq_lt_transitive, lemma_seq_lt_total};

verus! {

/// A box inserted without conflict is found again by its id.
pub proof fn law_created_box_found(boxes: Seq<BoxRowView>, name: Option<Seq<char>>, row: BoxRowView)
    requires
        create_box_conflict(boxes, row.id, name) is None,
    ensures
        lookup_box(boxes.push(row), row.id) == Some(row),
        box_by_id(boxes.push(row), row.id) == Some(row),
{
    let p = boxes.push(row);
    lemma_first_index(boxes, box_has_id(row.id));
    assert forall|k: int| 0 <= k < boxes.len() implies !box_has_id(row.id)(#[trigger] p[k]) by {
        assert(p[k] == boxes[k]);
        assert(!box_has_id(row.id)(boxes[k]));
    }
    lemma_first_index_at(p, box_has_id(row.id), boxes.len() as int);
}

/// After a box is deleted, no box has its id, no execution belongs to
/// it, and no event belongs to one of its executions.
pub proof fn law_deleted_box_gone(s: StoreView, id: Seq<char>)
    ensures
        box_by_id(after_delete_box(s, id).boxes, id) is None,
        lookup_box(after_delete_box(s, id).boxes, id) is None
            <== forall|k: int| 0 <= k < s.boxes.len() ==> (#[trigger] s.boxes[k]).name != Some(id),
        forall|k: int| 0 <= k < after_delete_box(s, id).execs.len()
            ==> (#[trigger] after_delete_box(s, id).execs[k]).box_id != id,
{
    let d = after_delete_box(s, id);
    lemma_keep_elements(s.boxes, box_id_other_than(id));
    lemma_keep_elements(s.execs, |e: ExecRowView| e.box_id != id);
    assert forall|k: int| 0 <= k < d.boxes.len() implies !box_has_id(id)(#[trigger] d.boxes[k]) by {
        assert(box_id_other_than(id)(d.boxes[k]));
    }
    lemma_first_index_none(d.boxes, box_has_id(id));
    if forall|k: int| 0 <= k < s.boxes.len() ==> (#[trigger] s.boxes[k]).name != Some(id) {
        assert forall|k: int| 0 <= k < d.boxes.len()
            implies !crate::store::box_has_name(id)(#[trigger] d.boxes[k]) by {
            assert(s.boxes.contains(d.boxes[k]));
            let w = choose|w: int| 0 <= w < s.boxes.len() && s.boxes[w] == d.boxes[k];
            assert(s.boxes[w].name != Some(id));
        }
        lemma_first_index_none(d.boxes, crate::store::box_has_name(id));
    }
    assert forall|k: int| 0 <= k < d.execs.len() implies (#[trigger] d.execs[k]).box_id != id by {
    }
}

/// Newer boxes first is a strict weak order.
proof fn lemma_box_order()
    ensures
        strict_weak_order(box_newer_first()),
{
    let pr = box_newer_first();
    assert forall|a: BoxRowView| !#[trigger] pr(a, a) by {
        lemma_seq_lt_irreflexive(a.created_at);
    }
    assert forall|a: BoxRowView, b: BoxRowView, c: BoxRowView| #[trigger] pr(a, b) && #[trigger] pr(b, c) implies pr(a, c) by {
        lemma_seq_lt_transitive(c.created_at, b.created_at, a.created_at);
    }
    assert forall|a: BoxRowView, b: BoxRowView, c: BoxRowView| !#[trigger] pr(a, b) && !#[trigger] pr(b, c) implies !pr(a, c) by {
        if pr(a, c) {
            if a.created_at != b.created_at {
                lemma_seq_lt_total(a.created_at, b.created_at);
                lemma_seq_lt_transitive(c.created_at, a.created_at, b.created_at);
            }
        }
    }
}

/// Newer executions first is a strict weak order.
proof fn lemma_exec_order()
    ensures
        strict_weak_order(exec_newer_first()),
{
    let pr = exec_newer_first();
    assert forall|a: ExecRowView| !#[trigger] pr(a, a) by {
        lemma_seq_lt_irreflexive(a.created_at);
    }
    assert forall|a: ExecRowView, b: ExecRowView, c: ExecRowView| #[trigger] pr(a, b) && #[trigger] pr(b, c) implies pr(a, c) by {
        lemma_seq_lt_transitive(c.created_at, b.created_at, a.created_at);
    }
    assert forall|a: ExecRowView, b: ExecRowView, c: ExecRowView| !#[trigger] pr(a, b) && !#[trigger] pr(b, c) implies !pr(a, c) by {
        if pr(a, c) {
            if a.created_at != b.created_at {
                lemma_seq_lt_total(a.created_at, b.created_at);
                lemma_seq_lt_transitive(c.created_at, a.created_at, b.created_at);
            }
        }
    }
}

/// Listing boxes gives each box that passes the status filter exactly
/// once, the newest first.
pub proof fn law_box_listing_newest_first(boxes: Seq<BoxRowView>, status: Option<Seq<char>>)
    ensures
        ordered(order_by(keep(boxes, status_filter(status)), box_newer_first()), box_newer_first()),
        order_by(keep(boxes, status_filter(status)), box_newer_first()).to_multiset()
            == keep(boxes, status_filter(status)).to_multiset(),
{
    lemma_box_order();
    lemma_order_by_ordered(keep(boxes, status_filter(status)), box_newer_first());
    lemma_order_by_multiset(keep(boxes, status_filter(status)), box_newer_first());
}

/// Listing a box's executions gives each of them exactly once, the
/// newest first.
pub proof fn law_exec_listing_newest_first(execs: Seq<ExecRowView>, box_id: Seq<char>)
    ensures
        ordered(order_by(keep(execs, exec_of_box(box_id)), exec_newer_first()), exec_newer_first()),
        order_by(keep(execs, exec_of_box(box_id)), exec_newer_first()).to_multiset()
            == keep(execs, exec_of_box(box_id)).to_multiset(),
{
    lemma_exec_order();
    lemma_order_by_ordered(keep(execs, exec_of_box(box_id)), exec_newer_first());
    lemma_order_by_multiset(keep(execs, exec_of_box(box_id)), exec_newer_first());
}

/// Reading an execution's events from a sequence number on gives each
/// such event exactly once, by increasing sequence number.
pub proof fn law_events_in_sequence(events: Seq<EventRowView>, exec_id: Seq<char>, since_seq: i64)
    ensures
        ordered(order_by(keep(events, event_wanted(exec_id, since_seq)), event_seq_first()), event_seq_first()),
        order_by(keep(events, event_wanted(exec_id, since_seq)), event_seq_first()).to_multiset()
            == keep(events, event_wanted(exec_id, since_seq)).to_multiset(),
{
    lemma_order_by_ordered(keep(events, event_wanted(exec_id, since_seq)), event_seq_first());
    lemma_order_by_multiset(keep(events, event_wanted(exec_id, since_seq)), event_seq_first());
}

/// An execution inserted under a free id is found again by it.
pub proof fn law_created_exec_found(execs: Seq<ExecRowView>, row: ExecRowView)
    requires
        first_index(execs, exec_has_id(row.id)) is None,
    ensures
        exec_by_id(execs.push(row), row.id) == Some(row),
{
    let p = execs.push(row);
    lemma_first_index(execs, exec_has_id(row.id));
    assert forall|k: int| 0 <= k < execs.len() implies !exec_has_id(row.id)(#[trigger] p[k]) by {
        assert(p[k] == execs[k]);
        assert(!exec_has_id(row.id)(execs[k]));
    }
    lemma_first_index_at(p, exec_has_id(row.id), execs.len() as int);
}

/// A finished execution is found with its exit code, its error, its
/// finish time, and the status they give: succeeded for exit code 0
/// without an error, failed otherwise.
pub proof fn law_finished_exec_found(
    execs: Seq<ExecRowView>,
    id: Seq<char>,
    exit_code: i64,
    error_message: Option<Seq<char>>,
    ts: Seq<char>,
)
    requires
        exec_by_id(execs, id) is Some,
    ensures
        exec_by_id(finish_execs(execs, id, exit_code, error_message, ts), id) == Some(ExecRowView {
            status: finished_status(exit_code, error_message),
            exit_code: Some(exit_code),
            error_message,
            finished_at: Some(ts),
            ..exec_by_id(execs, id)->0
        }),
        finished_status(exit_code, error_message) == (if exit_code == 0 && error_message is None {
            "succeeded"@
        } else {
            "failed"@
        }),
{
    let f = finish_execs(execs, id, exit_code, error_message, ts);
    assert forall|k: int| 0 <= k < f.len() implies exec_has_id(id)(#[trigger] f[k]) == exec_has_id(id)(execs[k]) by {
    }
    lemma_first_index(execs, exec_has_id(id));
    lemma_first_index(f, exec_has_id(id));
    let i = first_index(execs, exec_has_id(id))->0;
    lemma_first_index_at(f, exec_has_id(id), i);
}

/// An appended event is among the events that reading the execution's
/// events from any number up to its own gives.
pub proof fn law_appended_event_listed(
    s: StoreView,
    exec_id: Seq<char>,
    seq: i64,
    event_type: Seq<char>,
    data: Seq<char>,
    stream: Option<Seq<char>>,
    ts: Seq<char>,
    since_seq: i64,
)
    requires
        since_seq <= seq,
        s.last_event_id < i64::MAX,
    ensures
        order_by(keep(with_event(s, exec_id, seq, event_type, data, stream, ts).events, event_wanted(exec_id, since_seq)), event_seq_first())
            .contains(EventRowView {
                id: (s.last_event_id + 1) as i64,
                exec_id,
                seq,
                event_type,
                stream,
                data,
                created_at: ts,
            }),
{
    broadcast use vstd::seq_lib::group_to_multiset_ensures;
    let evs = with_event(s, exec_id, seq, event_type, data, stream, ts).events;
    let e = evs[evs.len() - 1];
    crate::seqs::lemma_keep_contains(evs, event_wanted(exec_id, since_seq), evs.len() - 1);
    let kept = keep(evs, event_wanted(exec_id, since_seq));
    lemma_order_by_multiset(kept, event_seq_first());
    assert(kept.to_multiset().count(e) > 0);
    assert(order_by(kept, event_seq_first()).to_multiset().count(e) > 0);
}

} // verus!
