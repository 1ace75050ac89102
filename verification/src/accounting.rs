//! The accounting of the resources that running boxes hold. The manager
//! keeps running totals of CPU, memory and boxes; these laws show that the
//! totals always equal what the running boxes of its store hold, that its
//! handles are exactly the running boxes, that a box is admitted only
//! within the host's limits, and that a refused request changes nothing.
use vstd::prelude::*;
use crate::box_manager::{
    ManagerView, running, released, id_other_than, claimed, with_store, with_id, without_id,
    stop_box_next, stop_box_answer, stop_box_fits, start_box_next, start_box_answer, start_box_fits,
    remove_box_next, remove_box_answer, remove_box_fits, stop_updates, start_updates, launch_updates,
    store_updated, CreateArgs, create_box_next, create_box_answer, create_box_fits, create_refusal,
    exec_in_box_next, exec_in_box_answer, cancel_exec_next, cancel_exec_answer, complete_exec_next,
    delete_all, gc_ids, updated_result, run_args, run_start_next, run_start_answer,
};
use crate::models::RunRequest;
use crate::models::Volume;
use crate::seqs::{keep, first_index, lemma_first_index, lemma_keep_elements, lemma_keep_contains};
use crate::store::{
    ids_unique, lemma_apply_updates_id, lemma_unique_without,
    BoxRowView, BoxValueView, StoreView, lookup_box, box_by_id, box_has_id, box_has_name, updated_boxes,
    apply_updates, set_column, new_box_row, box_id_other_than, create_box_conflict, after_delete_box, collectable, exec_has_id, cancel_execs,
};

verus! {

/// Whether a box is running.
pub open spec fn is_running(b: BoxRowView) -> bool {
    b.status == running()
}

/// What a box adds to a sum over running boxes.
pub open spec fn share(b: BoxRowView, f: spec_fn(BoxRowView) -> int) -> int {
    if is_running(b) { f(b) } else { 0 }
}

/// The sum of `f` over the running boxes.
pub open spec fn running_sum(boxes: Seq<BoxRowView>, f: spec_fn(BoxRowView) -> int) -> int
    decreases boxes.len(),
{
    if boxes.len() == 0 {
        0
    } else {
        running_sum(boxes.drop_last(), f) + share(boxes.last(), f)
    }
}

/// A box's CPU.
pub open spec fn cpu_of() -> spec_fn(BoxRowView) -> int {
    |b: BoxRowView| b.cpu as int
}

/// A box's memory.
pub open spec fn memory_of() -> spec_fn(BoxRowView) -> int {
    |b: BoxRowView| b.memory_mb as int
}

/// One for each box.
pub open spec fn one_each() -> spec_fn(BoxRowView) -> int {
    |b: BoxRowView| 1int
}

/// Whether a running box has the id.
pub open spec fn running_id(boxes: Seq<BoxRowView>, id: Seq<char>) -> bool {
    exists|i: int| 0 <= i < boxes.len() && #[trigger] boxes[i].id == id && is_running(boxes[i])
}

/// The manager's accounting agrees with its store: ids are unique, the
/// totals are the sums over the running boxes, and the handles are
/// exactly the running boxes.
pub open spec fn accounting_consistent(m: ManagerView) -> bool {
    &&& ids_unique(m.store.boxes)
    &&& m.total_cpu == running_sum(m.store.boxes, cpu_of())
    &&& m.total_memory_mb == running_sum(m.store.boxes, memory_of())
    &&& m.box_count == running_sum(m.store.boxes, one_each())
    &&& forall|id: Seq<char>| #[trigger] m.handles.contains(id) <==> running_id(m.store.boxes, id)
}

proof fn lemma_sum_push(boxes: Seq<BoxRowView>, b: BoxRowView, f: spec_fn(BoxRowView) -> int)
    ensures
        running_sum(boxes.push(b), f) == running_sum(boxes, f) + share(b, f),
{
    assert(boxes.push(b).drop_last() =~= boxes);
}

proof fn lemma_sum_none_running(boxes: Seq<BoxRowView>, f: spec_fn(BoxRowView) -> int)
    requires
        forall|k: int| 0 <= k < boxes.len() ==> !is_running(#[trigger] boxes[k]),
    ensures
        running_sum(boxes, f) == 0,
    decreases boxes.len(),
{
    if boxes.len() > 0 {
        assert(!is_running(boxes[boxes.len() - 1]));
        lemma_sum_none_running(boxes.drop_last(), f);
    }
}

proof fn lemma_updated_absent(boxes: Seq<BoxRowView>, id: Seq<char>, ups: Seq<(Seq<char>, BoxValueView)>)
    requires
        forall|k: int| 0 <= k < boxes.len() ==> (#[trigger] boxes[k]).id != id,
    ensures
        updated_boxes(boxes, id, ups) == boxes,
{
    assert(updated_boxes(boxes, id, ups) =~= boxes);
}

/// The rows after an update, position by position.
proof fn lemma_updated_at(boxes: Seq<BoxRowView>, id: Seq<char>, ups: Seq<(Seq<char>, BoxValueView)>)
    ensures
        updated_boxes(boxes, id, ups).len() == boxes.len(),
        forall|k: int| 0 <= k < boxes.len() ==> #[trigger] updated_boxes(boxes, id, ups)[k]
            == if boxes[k].id == id { apply_updates(boxes[k], ups) } else { boxes[k] },
        forall|k: int| 0 <= k < boxes.len() ==> (#[trigger] updated_boxes(boxes, id, ups)[k]).id == boxes[k].id,
{
    assert forall|k: int| 0 <= k < boxes.len() implies (#[trigger] updated_boxes(boxes, id, ups)[k]).id == boxes[k].id by {
        lemma_apply_updates_id(boxes[k], ups);
    }
}

/// Updating the one box with an id changes a sum by that box's share only.
proof fn lemma_sum_updated(boxes: Seq<BoxRowView>, id: Seq<char>, ups: Seq<(Seq<char>, BoxValueView)>, i: int, f: spec_fn(BoxRowView) -> int)
    requires
        ids_unique(boxes),
        0 <= i < boxes.len(),
        boxes[i].id == id,
    ensures
        running_sum(updated_boxes(boxes, id, ups), f)
            == running_sum(boxes, f) - share(boxes[i], f) + share(apply_updates(boxes[i], ups), f),
    decreases boxes.len(),
{
    let n = boxes.len() - 1;
    let u = updated_boxes(boxes, id, ups);
    let d = boxes.drop_last();
    lemma_updated_at(boxes, id, ups);
    assert(u.drop_last() =~= updated_boxes(d, id, ups));
    assert(u.last() == u[n]);
    if i == n {
        assert forall|k: int| 0 <= k < d.len() implies (#[trigger] d[k]).id != id by {
            assert(boxes[k].id != boxes[n].id);
        }
        lemma_updated_absent(d, id, ups);
    } else {
        assert(boxes[n].id != boxes[i].id);
        assert(ids_unique(d)) by {
            assert forall|a: int, b: int| 0 <= a < d.len() && 0 <= b < d.len() && a != b implies #[trigger] d[a].id != #[trigger] d[b].id by {
                assert(d[a] == boxes[a] && d[b] == boxes[b]);
            }
        }
        assert(d[i] == boxes[i]);
        lemma_sum_updated(d, id, ups, i, f);
    }
}

/// The running boxes after an update: the updated box runs when its
/// updated row does, the others as before.
proof fn lemma_running_id_updated(boxes: Seq<BoxRowView>, id: Seq<char>, ups: Seq<(Seq<char>, BoxValueView)>, i: int, y: Seq<char>)
    requires
        ids_unique(boxes),
        0 <= i < boxes.len(),
        boxes[i].id == id,
    ensures
        running_id(updated_boxes(boxes, id, ups), y)
            == if y == id { is_running(apply_updates(boxes[i], ups)) } else { running_id(boxes, y) },
{
    let u = updated_boxes(boxes, id, ups);
    lemma_updated_at(boxes, id, ups);
    if y == id {
        if running_id(u, y) {
            let k = choose|k: int| 0 <= k < u.len() && #[trigger] u[k].id == y && is_running(u[k]);
            assert(boxes[k].id == id);
            if k != i {
                assert(boxes[k].id != boxes[i].id);
            }
        }
        if is_running(apply_updates(boxes[i], ups)) {
            assert(u[i].id == y);
        }
    } else {
        if running_id(u, y) {
            let k = choose|k: int| 0 <= k < u.len() && #[trigger] u[k].id == y && is_running(u[k]);
            assert(boxes[k].id == y);
        }
        if running_id(boxes, y) {
            let k = choose|k: int| 0 <= k < boxes.len() && #[trigger] boxes[k].id == y && is_running(boxes[k]);
            assert(u[k] == boxes[k]);
        }
    }
}

/// Keeping every element is keeping the sequence.
proof fn lemma_keep_all<A>(s: Seq<A>, p: spec_fn(A) -> bool)
    requires
        forall|k: int| 0 <= k < s.len() ==> p(#[trigger] s[k]),
    ensures
        keep(s, p) == s,
    decreases s.len(),
{
    if s.len() > 0 {
        assert(p(s[s.len() - 1]));
        lemma_keep_all(s.drop_last(), p);
        assert(s.drop_last().push(s.last()) =~= s);
    }
}

/// The boxes without those of one id.
pub open spec fn without_box(boxes: Seq<BoxRowView>, x: Seq<char>) -> Seq<BoxRowView> {
    keep(boxes, box_id_other_than(x))
}

/// Removing the box with an id takes its share off a sum.
proof fn lemma_sum_without(boxes: Seq<BoxRowView>, x: Seq<char>, i: int, f: spec_fn(BoxRowView) -> int)
    requires
        ids_unique(boxes),
        0 <= i < boxes.len(),
        boxes[i].id == x,
    ensures
        running_sum(without_box(boxes, x), f) == running_sum(boxes, f) - share(boxes[i], f),
    decreases boxes.len(),
{
    let p = box_id_other_than(x);
    let n = boxes.len() - 1;
    let d = boxes.drop_last();
    assert(boxes.last() == boxes[n]);
    if i == n {
        assert forall|k: int| 0 <= k < d.len() implies p(#[trigger] d[k]) by {
            assert(boxes[k].id != boxes[n].id);
        }
        lemma_keep_all(d, p);
    } else {
        assert(boxes[n].id != boxes[i].id);
        assert(ids_unique(d)) by {
            assert forall|a: int, b: int| 0 <= a < d.len() && 0 <= b < d.len() && a != b implies #[trigger] d[a].id != #[trigger] d[b].id by {
                assert(d[a] == boxes[a] && d[b] == boxes[b]);
            }
        }
        assert(d[i] == boxes[i]);
        lemma_sum_without(d, x, i, f);
        lemma_sum_push(without_box(d, x), boxes.last(), f);
    }
}

/// Removing boxes that are not running leaves a sum as it was.
proof fn lemma_sum_without_idle(boxes: Seq<BoxRowView>, x: Seq<char>, f: spec_fn(BoxRowView) -> int)
    requires
        forall|k: int| 0 <= k < boxes.len() && (#[trigger] boxes[k]).id == x ==> !is_running(boxes[k]),
    ensures
        running_sum(without_box(boxes, x), f) == running_sum(boxes, f),
    decreases boxes.len(),
{
    if boxes.len() > 0 {
        let n = boxes.len() - 1;
        let d = boxes.drop_last();
        assert(boxes.last() == boxes[n]);
        assert forall|k: int| 0 <= k < d.len() && (#[trigger] d[k]).id == x implies !is_running(d[k]) by {
            assert(d[k] == boxes[k]);
        }
        lemma_sum_without_idle(d, x, f);
        if boxes[n].id != x {
            lemma_sum_push(without_box(d, x), boxes.last(), f);
        }
    }
}

/// The running boxes after the boxes of one id are removed.
proof fn lemma_running_id_without(boxes: Seq<BoxRowView>, x: Seq<char>, y: Seq<char>)
    ensures
        running_id(without_box(boxes, x), y) == (y != x && running_id(boxes, y)),
{
    let p = box_id_other_than(x);
    let w = without_box(boxes, x);
    lemma_keep_elements(boxes, p);
    if running_id(w, y) {
        let k = choose|k: int| 0 <= k < w.len() && #[trigger] w[k].id == y && is_running(w[k]);
        assert(p(w[k]));
        assert(boxes.contains(w[k]));
        let j = choose|j: int| 0 <= j < boxes.len() && boxes[j] == w[k];
        assert(boxes[j].id == y);
    }
    if y != x && running_id(boxes, y) {
        let k = choose|k: int| 0 <= k < boxes.len() && #[trigger] boxes[k].id == y && is_running(boxes[k]);
        lemma_keep_contains(boxes, p, k);
        let j = choose|j: int| 0 <= j < w.len() && w[j] == boxes[k];
        assert(w[j].id == y);
    }
}

/// The column names that the manager's updates set differ from every
/// other column name.
proof fn lemma_column_names()
    ensures
        "status"@ != "image"@ && "status"@ != "workdir"@,
        "stopped_at"@ != "status"@ && "stopped_at"@ != "image"@ && "stopped_at"@ != "workdir"@
            && "stopped_at"@ != "cpu"@ && "stopped_at"@ != "memory_mb"@ && "stopped_at"@ != "disk_size_gb"@
            && "stopped_at"@ != "network"@ && "stopped_at"@ != "env"@ && "stopped_at"@ != "volumes"@
            && "stopped_at"@ != "boxlite_id"@ && "stopped_at"@ != "error_code"@ && "stopped_at"@ != "error_message"@
            && "stopped_at"@ != "started_at"@,
        "started_at"@ != "status"@ && "started_at"@ != "image"@ && "started_at"@ != "workdir"@
            && "started_at"@ != "cpu"@ && "started_at"@ != "memory_mb"@ && "started_at"@ != "disk_size_gb"@
            && "started_at"@ != "network"@ && "started_at"@ != "env"@ && "started_at"@ != "volumes"@
            && "started_at"@ != "boxlite_id"@ && "started_at"@ != "error_code"@ && "started_at"@ != "error_message"@,
        "boxlite_id"@ != "status"@ && "boxlite_id"@ != "image"@ && "boxlite_id"@ != "workdir"@
            && "boxlite_id"@ != "cpu"@ && "boxlite_id"@ != "memory_mb"@ && "boxlite_id"@ != "disk_size_gb"@
            && "boxlite_id"@ != "network"@ && "boxlite_id"@ != "env"@ && "boxlite_id"@ != "volumes"@,
{
    reveal_strlit("status");
    reveal_strlit("image");
    reveal_strlit("workdir");
    reveal_strlit("cpu");
    reveal_strlit("memory_mb");
    reveal_strlit("disk_size_gb");
    reveal_strlit("network");
    reveal_strlit("env");
    reveal_strlit("volumes");
    reveal_strlit("boxlite_id");
    reveal_strlit("error_code");
    reveal_strlit("error_message");
    reveal_strlit("started_at");
    reveal_strlit("stopped_at");
    assert("status"@.len() == 6 && "image"@.len() == 5 && "workdir"@.len() == 7 && "cpu"@.len() == 3);
    assert("memory_mb"@.len() == 9 && "disk_size_gb"@.len() == 12 && "network"@.len() == 7);
    assert("env"@.len() == 3 && "volumes"@.len() == 7 && "error_message"@.len() == 13);
    assert("stopped_at"@.len() == 10 && "started_at"@.len() == 10 && "boxlite_id"@.len() == 10);
    assert("error_code"@.len() == 10);
    assert("stopped_at"@[0] != "boxlite_id"@[0]);
    assert("stopped_at"@[0] != "error_code"@[0]);
    assert("stopped_at"@[2] != "started_at"@[2]);
    assert("started_at"@[0] != "boxlite_id"@[0]);
    assert("started_at"@[0] != "error_code"@[0]);
}

/// A stopped row: the status and the stop time set, all else as before.
proof fn lemma_stop_row(r: BoxRowView, ts: Seq<char>)
    ensures
        apply_updates(r, stop_updates(ts)) == (BoxRowView { status: "stopped"@, stopped_at: Some(ts), ..r }),
{
    lemma_column_names();
    let u = stop_updates(ts);
    let r1 = set_column(r, u[0].0, u[0].1);
    let r2 = set_column(r1, u[1].0, u[1].1);
    assert(u.drop_first().drop_first() =~= Seq::<(Seq<char>, BoxValueView)>::empty());
    assert(u.drop_first()[0] == u[1]);
    assert(apply_updates(r2, u.drop_first().drop_first()) == r2);
    assert(apply_updates(r1, u.drop_first()) == r2);
}

/// A started row: running, with the start time set and the stop time cleared.
proof fn lemma_start_row(r: BoxRowView, ts: Seq<char>)
    ensures
        apply_updates(r, start_updates(ts)) == (BoxRowView { status: "running"@, started_at: Some(ts), stopped_at: None, ..r }),
{
    lemma_column_names();
    let u = start_updates(ts);
    let r1 = set_column(r, u[0].0, u[0].1);
    let r2 = set_column(r1, u[1].0, u[1].1);
    let r3 = set_column(r2, u[2].0, u[2].1);
    let u1 = u.drop_first();
    let u2 = u1.drop_first();
    assert(u2.drop_first() =~= Seq::<(Seq<char>, BoxValueView)>::empty());
    assert(u1[0] == u[1]);
    assert(u2[0] == u[2]);
    assert(apply_updates(r3, u2.drop_first()) == r3);
    assert(apply_updates(r2, u2) == r3);
    assert(apply_updates(r1, u1) == r3);
}

/// A launched row: running, with its machine id and start time set.
proof fn lemma_launch_row(r: BoxRowView, id: Seq<char>, ts: Seq<char>)
    ensures
        apply_updates(r, launch_updates(id, ts))
            == (BoxRowView { status: "running"@, boxlite_id: Some("bl_"@ + id), started_at: Some(ts), ..r }),
{
    lemma_column_names();
    let u = launch_updates(id, ts);
    let r1 = set_column(r, u[0].0, u[0].1);
    let r2 = set_column(r1, u[1].0, u[1].1);
    let r3 = set_column(r2, u[2].0, u[2].1);
    let u1 = u.drop_first();
    let u2 = u1.drop_first();
    assert(u2.drop_first() =~= Seq::<(Seq<char>, BoxValueView)>::empty());
    assert(u1[0] == u[1]);
    assert(u2[0] == u[2]);
    assert(apply_updates(r3, u2.drop_first()) == r3);
    assert(apply_updates(r2, u2) == r3);
    assert(apply_updates(r1, u1) == r3);
}

/// The box that a key names is one of the boxes.
proof fn lemma_lookup_box_index(boxes: Seq<BoxRowView>, key: Seq<char>) -> (i: int)
    requires
        lookup_box(boxes, key) is Some,
    ensures
        0 <= i < boxes.len(),
        boxes[i] == lookup_box(boxes, key)->0,
{
    lemma_first_index(boxes, box_has_id(key));
    lemma_first_index(boxes, box_has_name(key));
    match first_index(boxes, box_has_id(key)) {
        Some(i) => i,
        None => first_index(boxes, box_has_name(key))->0,
    }
}

/// Updating a box that exists keeps it findable by its id.
proof fn lemma_updated_found(boxes: Seq<BoxRowView>, id: Seq<char>, ups: Seq<(Seq<char>, BoxValueView)>, i: int)
    requires
        0 <= i < boxes.len(),
        boxes[i].id == id,
    ensures
        box_by_id(updated_boxes(boxes, id, ups), id) is Some,
{
    let u = updated_boxes(boxes, id, ups);
    lemma_updated_at(boxes, id, ups);
    lemma_first_index(u, box_has_id(id));
    if first_index(u, box_has_id(id)) is None {
        assert(box_has_id(id)(u[i]));
    }
}

/// The names of the statuses other than running.
proof fn lemma_status_names()
    ensures
        "stopped"@ != running(),
        "creating"@ != running(),
        "error"@ != running(),
{
    reveal_strlit("stopped");
    reveal_strlit("creating");
    reveal_strlit("error");
    reveal_strlit("running");
    assert("stopped"@[0] != "running"@[0]);
    assert("creating"@.len() != "running"@.len());
    assert("error"@.len() != "running"@.len());
}

proof fn lemma_with_id_contains(hs: Seq<Seq<char>>, id: Seq<char>, y: Seq<char>)
    ensures
        with_id(hs, id).contains(y) == (hs.contains(y) || y == id),
{
    if !hs.contains(id) {
        let p = hs.push(id);
        if hs.contains(y) {
            let k = choose|k: int| 0 <= k < hs.len() && hs[k] == y;
            assert(p[k] == y);
        }
        if y == id {
            assert(p[hs.len() as int] == y);
        }
        if p.contains(y) && y != id {
            let k = choose|k: int| 0 <= k < p.len() && p[k] == y;
            assert(hs[k] == y);
        }
    }
}

proof fn lemma_without_id_contains(hs: Seq<Seq<char>>, id: Seq<char>, y: Seq<char>)
    ensures
        without_id(hs, id).contains(y) == (hs.contains(y) && y != id),
{
    let p = id_other_than(id);
    let w = without_id(hs, id);
    lemma_keep_elements(hs, p);
    if w.contains(y) {
        let k = choose|k: int| 0 <= k < w.len() && w[k] == y;
        assert(p(w[k]));
    }
    if hs.contains(y) && y != id {
        let k = choose|k: int| 0 <= k < hs.len() && hs[k] == y;
        lemma_keep_contains(hs, p, k);
    }
}

/// Stopping a box keeps the accounting consistent: the box gives its
/// resources back and its handle up as it stops running.
pub proof fn law_stop_keeps_accounting(m: ManagerView, key: Seq<char>, ts: Seq<char>)
    requires
        accounting_consistent(m),
        stop_box_fits(m, key),
    ensures
        accounting_consistent(stop_box_next(m, key, ts)),
{
    if let Some(b) = lookup_box(m.store.boxes, key) {
        if b.status == running() {
            let boxes = m.store.boxes;
            let i = lemma_lookup_box_index(boxes, key);
            let ups = stop_updates(ts);
            let nb = updated_boxes(boxes, b.id, ups);
            let next = stop_box_next(m, key, ts);
            lemma_status_names();
            lemma_stop_row(b, ts);
            lemma_updated_at(boxes, b.id, ups);
            lemma_sum_updated(boxes, b.id, ups, i, cpu_of());
            lemma_sum_updated(boxes, b.id, ups, i, memory_of());
            lemma_sum_updated(boxes, b.id, ups, i, one_each());
            assert(next.store.boxes == nb);
            assert forall|y: Seq<char>| #[trigger] next.handles.contains(y) <==> running_id(nb, y) by {
                lemma_running_id_updated(boxes, b.id, ups, i, y);
                lemma_without_id_contains(m.handles, b.id, y);
            }
        }
    }
}

/// Starting a stopped box keeps the accounting consistent: the box takes
/// its resources and a handle as it starts running.
pub proof fn law_start_keeps_accounting(m: ManagerView, key: Seq<char>, ts: Seq<char>)
    requires
        accounting_consistent(m),
        start_box_fits(m, key),
    ensures
        accounting_consistent(start_box_next(m, key, ts)),
{
    if let Some(b) = lookup_box(m.store.boxes, key) {
        if b.status != running() && b.status == "stopped"@
            && m.total_cpu + b.cpu <= m.max_cpu && m.total_memory_mb + b.memory_mb <= m.max_memory_mb {
            let boxes = m.store.boxes;
            let i = lemma_lookup_box_index(boxes, key);
            let ups = start_updates(ts);
            let nb = updated_boxes(boxes, b.id, ups);
            let next = start_box_next(m, key, ts);
            lemma_start_row(b, ts);
            lemma_updated_at(boxes, b.id, ups);
            lemma_sum_updated(boxes, b.id, ups, i, cpu_of());
            lemma_sum_updated(boxes, b.id, ups, i, memory_of());
            lemma_sum_updated(boxes, b.id, ups, i, one_each());
            assert(next.store.boxes == nb);
            assert(!running_id(boxes, b.id)) by {
                if running_id(boxes, b.id) {
                    let k = choose|k: int| 0 <= k < boxes.len() && #[trigger] boxes[k].id == b.id && is_running(boxes[k]);
                    if k != i {
                        assert(boxes[k].id != boxes[i].id);
                    }
                }
            }
            assert forall|y: Seq<char>| #[trigger] next.handles.contains(y) <==> running_id(nb, y) by {
                lemma_running_id_updated(boxes, b.id, ups, i, y);
                lemma_with_id_contains(m.handles, b.id, y);
            }
        }
    }
}

/// Removing a box keeps the accounting consistent: a running box that is
/// removed by force gives its resources back first.
pub proof fn law_remove_keeps_accounting(m: ManagerView, key: Seq<char>, force: bool)
    requires
        accounting_consistent(m),
        remove_box_fits(m, key, force),
    ensures
        accounting_consistent(remove_box_next(m, key, force)),
{
    if let Some(b) = lookup_box(m.store.boxes, key) {
        if !(b.status == running() && !force) {
            let boxes = m.store.boxes;
            let i = lemma_lookup_box_index(boxes, key);
            let nb = without_box(boxes, b.id);
            let next = remove_box_next(m, key, force);
            assert(next.store.boxes == nb);
            lemma_sum_without(boxes, b.id, i, cpu_of());
            lemma_sum_without(boxes, b.id, i, memory_of());
            lemma_sum_without(boxes, b.id, i, one_each());
            lemma_unique_without(boxes, b.id);
            assert forall|y: Seq<char>| #[trigger] next.handles.contains(y) <==> running_id(nb, y) by {
                lemma_running_id_without(boxes, b.id, y);
                lemma_without_id_contains(m.handles, b.id, y);
                lemma_without_id_contains(without_id(m.handles, b.id), b.id, y);
            }
        }
    }
}

/// Creating a box keeps the accounting consistent: the new box is
/// recorded, takes its resources and a handle, and runs.
pub proof fn law_create_keeps_accounting(
    m: ManagerView,
    a: CreateArgs,
    missing: Option<Seq<char>>,
    id: Seq<char>,
    t_created: Seq<char>,
    t_started: Seq<char>,
)
    requires
        accounting_consistent(m),
        create_box_fits(m, a),
    ensures
        accounting_consistent(create_box_next(m, a, missing, id, t_created, t_started)),
{
    if create_refusal(m, a, missing) is None && create_box_conflict(m.store.boxes, id, a.name) is None {
        let boxes = m.store.boxes;
        let row = new_box_row(id, a.name, a.image, a.cpu, a.memory_mb, a.disk_size_gb, a.network, a.workdir,
            a.env, a.volumes, t_created);
        let pushed = boxes.push(row);
        let ups = launch_updates(id, t_started);
        let nb = updated_boxes(pushed, id, ups);
        let next = create_box_next(m, a, missing, id, t_created, t_started);
        let i = boxes.len() as int;
        lemma_status_names();
        lemma_first_index(boxes, box_has_id(id));
        assert forall|k: int| 0 <= k < boxes.len() implies (#[trigger] boxes[k]).id != id by {
            assert(!box_has_id(id)(boxes[k]));
        }
        assert(pushed[i] == row);
        assert(ids_unique(pushed)) by {
            assert forall|x: int, y: int| 0 <= x < pushed.len() && 0 <= y < pushed.len() && x != y
                implies #[trigger] pushed[x].id != #[trigger] pushed[y].id by {
                if x < i && y < i {
                    assert(pushed[x] == boxes[x] && pushed[y] == boxes[y]);
                } else if x < i {
                    assert(pushed[x] == boxes[x]);
                } else {
                    assert(pushed[y] == boxes[y]);
                }
            }
        }
        lemma_sum_push(boxes, row, cpu_of());
        lemma_sum_push(boxes, row, memory_of());
        lemma_sum_push(boxes, row, one_each());
        lemma_launch_row(row, id, t_started);
        lemma_updated_at(pushed, id, ups);
        lemma_sum_updated(pushed, id, ups, i, cpu_of());
        lemma_sum_updated(pushed, id, ups, i, memory_of());
        lemma_sum_updated(pushed, id, ups, i, one_each());
        assert(next.store.boxes == nb);
        assert(!running_id(boxes, id));
        assert forall|y: Seq<char>| #[trigger] next.handles.contains(y) <==> running_id(nb, y) by {
            lemma_running_id_updated(pushed, id, ups, i, y);
            lemma_with_id_contains(m.handles, id, y);
            if y != id {
                if running_id(pushed, y) {
                    let k = choose|k: int| 0 <= k < pushed.len() && #[trigger] pushed[k].id == y && is_running(pushed[k]);
                    assert(k != i);
                    assert(boxes[k] == pushed[k]);
                }
                if running_id(boxes, y) {
                    let k = choose|k: int| 0 <= k < boxes.len() && #[trigger] boxes[k].id == y && is_running(boxes[k]);
                    assert(pushed[k] == boxes[k]);
                }
            }
        }
    }
}

/// Whether every box with one of the ids is idle.
pub open spec fn all_idle(boxes: Seq<BoxRowView>, ids: Seq<Seq<char>>) -> bool {
    forall|k: int, j: int| 0 <= k < ids.len() && 0 <= j < boxes.len() && #[trigger] boxes[j].id == #[trigger] ids[k]
        ==> !is_running(boxes[j])
}

/// Removing idle boxes, one id after another, keeps the sums, the
/// running boxes and the uniqueness of ids.
proof fn lemma_delete_all_idle(s: StoreView, ids: Seq<Seq<char>>)
    requires
        ids_unique(s.boxes),
        all_idle(s.boxes, ids),
    ensures
        ids_unique(delete_all(s, ids).boxes),
        running_sum(delete_all(s, ids).boxes, cpu_of()) == running_sum(s.boxes, cpu_of()),
        running_sum(delete_all(s, ids).boxes, memory_of()) == running_sum(s.boxes, memory_of()),
        running_sum(delete_all(s, ids).boxes, one_each()) == running_sum(s.boxes, one_each()),
        forall|y: Seq<char>| running_id(delete_all(s, ids).boxes, y) == #[trigger] running_id(s.boxes, y),
    decreases ids.len(),
{
    if ids.len() > 0 {
        let x = ids[0];
        let s1 = after_delete_box(s, x);
        let rest = ids.drop_first();
        assert(s1.boxes == without_box(s.boxes, x));
        assert forall|j: int| 0 <= j < s.boxes.len() && (#[trigger] s.boxes[j]).id == x implies !is_running(s.boxes[j]) by {
            assert(s.boxes[j].id == ids[0]);
        }
        lemma_sum_without_idle(s.boxes, x, cpu_of());
        lemma_sum_without_idle(s.boxes, x, memory_of());
        lemma_sum_without_idle(s.boxes, x, one_each());
        lemma_unique_without(s.boxes, x);
        lemma_keep_elements(s.boxes, box_id_other_than(x));
        assert(all_idle(s1.boxes, rest)) by {
            assert forall|k: int, j: int| 0 <= k < rest.len() && 0 <= j < s1.boxes.len() && #[trigger] s1.boxes[j].id == #[trigger] rest[k]
                implies !is_running(s1.boxes[j]) by {
                assert(s.boxes.contains(s1.boxes[j]));
                let w = choose|w: int| 0 <= w < s.boxes.len() && s.boxes[w] == s1.boxes[j];
                assert(rest[k] == ids[k + 1]);
                assert(s.boxes[w].id == ids[k + 1]);
            }
        }
        lemma_delete_all_idle(s1, rest);
        assert forall|y: Seq<char>| running_id(delete_all(s, ids).boxes, y) == #[trigger] running_id(s.boxes, y) by {
            lemma_running_id_without(s.boxes, x, y);
            if y == x && running_id(s.boxes, y) {
                let j = choose|j: int| 0 <= j < s.boxes.len() && #[trigger] s.boxes[j].id == y && is_running(s.boxes[j]);
            }
        }
    }
}

/// Collecting old boxes keeps the accounting consistent: only boxes that
/// are stopped or failed are collected.
pub proof fn law_gc_keeps_accounting(m: ManagerView, cutoff: Seq<char>)
    requires
        accounting_consistent(m),
    ensures
        accounting_consistent(with_store(m, delete_all(m.store, gc_ids(m.store, cutoff)))),
{
    let boxes = m.store.boxes;
    let ids = gc_ids(m.store, cutoff);
    let kept = keep(boxes, collectable(cutoff));
    lemma_status_names();
    lemma_keep_elements(boxes, collectable(cutoff));
    assert(all_idle(boxes, ids)) by {
        assert forall|k: int, j: int| 0 <= k < ids.len() && 0 <= j < boxes.len() && #[trigger] boxes[j].id == #[trigger] ids[k]
            implies !is_running(boxes[j]) by {
            assert(ids[k] == kept[k].id);
            assert(collectable(cutoff)(kept[k]));
            assert(boxes.contains(kept[k]));
            let w = choose|w: int| 0 <= w < boxes.len() && boxes[w] == kept[k];
            if w != j {
                assert(boxes[w].id != boxes[j].id);
            }
        }
    }
    lemma_delete_all_idle(m.store, ids);
    let next = with_store(m, delete_all(m.store, ids));
    assert forall|y: Seq<char>| #[trigger] next.handles.contains(y) <==> running_id(next.store.boxes, y) by {
        assert(running_id(next.store.boxes, y) == running_id(boxes, y));
    }
}

/// Running, canceling and completing commands leave the boxes, the
/// totals and the handles as they were.
pub proof fn law_exec_keeps_accounting(
    m: ManagerView,
    key: Seq<char>,
    cmd: Seq<String>,
    env: Option<Map<String, String>>,
    workdir: Option<Seq<char>>,
    timeout_ms: Option<i64>,
    exec_id: Seq<char>,
    t1: Seq<char>,
    t2: Seq<char>,
)
    requires
        accounting_consistent(m),
    ensures
        accounting_consistent(exec_in_box_next(m, key, cmd, env, workdir, timeout_ms, exec_id, t1)),
        accounting_consistent(cancel_exec_next(m, exec_id, t1)),
        accounting_consistent(complete_exec_next(m, exec_id, t1, t2)),
{
    let a = exec_in_box_next(m, key, cmd, env, workdir, timeout_ms, exec_id, t1);
    let b = cancel_exec_next(m, exec_id, t1);
    let c = complete_exec_next(m, exec_id, t1, t2);
    assert(a.store.boxes == m.store.boxes && a.handles == m.handles);
    assert(b.store.boxes == m.store.boxes && b.handles == m.handles);
    assert(c.store.boxes == m.store.boxes && c.handles == m.handles);
}

/// A manager with an empty store and nothing held is consistent.
pub proof fn law_fresh_manager_accounting(m: ManagerView)
    requires
        m.store.boxes.len() == 0,
        m.total_cpu == 0,
        m.total_memory_mb == 0,
        m.box_count == 0,
        m.handles.len() == 0,
    ensures
        accounting_consistent(m),
{
    assert forall|y: Seq<char>| #[trigger] m.handles.contains(y) <==> running_id(m.store.boxes, y) by {
        if m.handles.contains(y) {
            let k = choose|k: int| 0 <= k < m.handles.len() && m.handles[k] == y;
        }
    }
}

/// A box is admitted only within the host's limits: when creating or
/// starting one succeeds, the totals after it are within the limits,
/// which stay as they were.
pub proof fn law_admission_within_limits(
    m: ManagerView,
    a: CreateArgs,
    missing: Option<Seq<char>>,
    id: Seq<char>,
    key: Seq<char>,
    t1: Seq<char>,
    t2: Seq<char>,
)
    requires
        create_box_fits(m, a),
        start_box_fits(m, key),
    ensures
        create_box_answer(m, a, missing, id, t1, t2) is Ok ==> {
            let n = create_box_next(m, a, missing, id, t1, t2);
            &&& n.total_cpu <= n.max_cpu && n.total_memory_mb <= n.max_memory_mb
            &&& n.max_cpu == m.max_cpu && n.max_memory_mb == m.max_memory_mb
        },
        start_box_answer(m, key, t1) is Ok ==> {
            let n = start_box_next(m, key, t1);
            &&& n.total_cpu <= n.max_cpu && n.total_memory_mb <= n.max_memory_mb
            &&& n.max_cpu == m.max_cpu && n.max_memory_mb == m.max_memory_mb
        },
{
}

/// A refused request to stop, start or remove a box leaves the manager
/// as it was.
pub proof fn law_refused_box_request_changes_nothing(m: ManagerView, key: Seq<char>, ts: Seq<char>, force: bool)
    ensures
        stop_box_answer(m, key, ts) is Err ==> stop_box_next(m, key, ts) == m,
        start_box_answer(m, key, ts) is Err ==> start_box_next(m, key, ts) == m,
        remove_box_answer(m, key, force) is Err ==> remove_box_next(m, key, force) == m,
{
    if let Some(b) = lookup_box(m.store.boxes, key) {
        let i = lemma_lookup_box_index(m.store.boxes, key);
        lemma_updated_found(m.store.boxes, b.id, stop_updates(ts), i);
        lemma_updated_found(m.store.boxes, b.id, start_updates(ts), i);
    }
}

/// A refused creation leaves the manager as it was.
pub proof fn law_refused_create_changes_nothing(
    m: ManagerView,
    a: CreateArgs,
    missing: Option<Seq<char>>,
    id: Seq<char>,
    t1: Seq<char>,
    t2: Seq<char>,
)
    ensures
        create_box_answer(m, a, missing, id, t1, t2) is Err ==> create_box_next(m, a, missing, id, t1, t2) == m,
{
    if create_refusal(m, a, missing) is None && create_box_conflict(m.store.boxes, id, a.name) is None {
        let row = new_box_row(id, a.name, a.image, a.cpu, a.memory_mb, a.disk_size_gb, a.network, a.workdir,
            a.env, a.volumes, t1);
        let pushed = m.store.boxes.push(row);
        assert(pushed[m.store.boxes.len() as int] == row);
        lemma_updated_found(pushed, id, launch_updates(id, t2), m.store.boxes.len() as int);
    }
}

/// A refused request to run or cancel a command leaves the manager as it was.
pub proof fn law_refused_exec_request_changes_nothing(
    m: ManagerView,
    key: Seq<char>,
    cmd: Seq<String>,
    env: Option<Map<String, String>>,
    workdir: Option<Seq<char>>,
    timeout_ms: Option<i64>,
    exec_id: Seq<char>,
    ts: Seq<char>,
)
    ensures
        exec_in_box_answer(m, key, cmd, env, workdir, timeout_ms, exec_id, ts) is Err
            ==> exec_in_box_next(m, key, cmd, env, workdir, timeout_ms, exec_id, ts) == m,
        cancel_exec_answer(m, exec_id, ts) is Err ==> cancel_exec_next(m, exec_id, ts) == m,
{
    let execs = m.store.execs;
    lemma_first_index(execs, exec_has_id(exec_id));
    if let Some(i) = first_index(execs, exec_has_id(exec_id)) {
        let c = cancel_execs(execs, exec_id, ts);
        lemma_first_index(c, exec_has_id(exec_id));
        if first_index(c, exec_has_id(exec_id)) is None {
            assert(exec_has_id(exec_id)(c[i]));
        }
    }
}

proof fn lemma_sum_remove(t: Seq<BoxRowView>, k: int, f: spec_fn(BoxRowView) -> int)
    requires
        0 <= k < t.len(),
    ensures
        running_sum(t, f) == running_sum(t.remove(k), f) + share(t[k], f),
    decreases t.len(),
{
    if k == t.len() - 1 {
        assert(t.remove(k) =~= t.drop_last());
    } else {
        lemma_sum_remove(t.drop_last(), k, f);
        assert(t.remove(k).drop_last() =~= t.drop_last().remove(k));
        assert(t.remove(k).last() == t.last());
    }
}

/// A sum over the running boxes does not depend on their order.
proof fn lemma_sum_permutation(s: Seq<BoxRowView>, t: Seq<BoxRowView>, f: spec_fn(BoxRowView) -> int)
    requires
        s.to_multiset() == t.to_multiset(),
    ensures
        running_sum(s, f) == running_sum(t, f),
    decreases s.len(),
{
    broadcast use vstd::seq_lib::group_to_multiset_ensures;
    broadcast use vstd::multiset::group_multiset_axioms;
    if s.len() == 0 {
        assert(s.to_multiset().len() == 0);
        assert(t.to_multiset().len() == t.len());
        assert(t.len() == 0);
    } else {
        let x = s.last();
        let d = s.drop_last();
        assert(d.push(x) =~= s);
        assert(s.to_multiset().count(x) > 0);
        assert(t.contains(x));
        let k = choose|k: int| 0 <= k < t.len() && t[k] == x;
        let t2 = t.remove(k);
        assert(d.to_multiset() =~= s.to_multiset().remove(x));
        assert(t2.to_multiset() =~= t.to_multiset().remove(x));
        lemma_sum_permutation(d, t2, f);
        lemma_sum_remove(t, k, f);
    }
}

/// A sum over the running boxes, taken from the front.
proof fn lemma_sum_first(rows: Seq<BoxRowView>, f: spec_fn(BoxRowView) -> int)
    requires
        rows.len() > 0,
    ensures
        running_sum(rows, f) == share(rows[0], f) + running_sum(rows.drop_first(), f),
    decreases rows.len(),
{
    if rows.len() == 1 {
        assert(rows.drop_first() =~= Seq::<BoxRowView>::empty());
        assert(rows.drop_last() =~= Seq::<BoxRowView>::empty());
    } else {
        lemma_sum_first(rows.drop_last(), f);
        assert(rows.drop_last().drop_first() =~= rows.drop_first().drop_last());
        assert(rows.drop_first().last() == rows.last());
    }
}

/// Whether start-up takes a box up: running or being created, with a
/// virtual machine id.
pub open spec fn taken_up(r: BoxRowView) -> bool {
    (r.status == running() || r.status == "creating"@) && r.boxlite_id is Some
}

/// Whether start-up takes up exactly the running boxes: every running
/// box has a machine id, and no box being created has one yet.
pub open spec fn recoverable(boxes: Seq<BoxRowView>) -> bool {
    forall|k: int| 0 <= k < boxes.len() ==> (taken_up(#[trigger] boxes[k]) <==> is_running(boxes[k]))
}

/// The start-up fold counts the running boxes of the rows.
proof fn lemma_init_fold(m: ManagerView, rows: Seq<BoxRowView>)
    requires
        recoverable(rows),
        crate::box_manager::init_fits(m, rows),
    ensures
        crate::box_manager::init_fold(m, rows).store == m.store,
        crate::box_manager::init_fold(m, rows).total_cpu == m.total_cpu + running_sum(rows, cpu_of()),
        crate::box_manager::init_fold(m, rows).total_memory_mb == m.total_memory_mb + running_sum(rows, memory_of()),
        crate::box_manager::init_fold(m, rows).box_count == m.box_count + running_sum(rows, one_each()),
        forall|y: Seq<char>| #[trigger] crate::box_manager::init_fold(m, rows).handles.contains(y)
            <==> (m.handles.contains(y) || running_id(rows, y)),
    decreases rows.len(),
{
    let n = crate::box_manager::init_fold(m, rows);
    if rows.len() == 0 {
        assert forall|y: Seq<char>| #[trigger] n.handles.contains(y) <==> (m.handles.contains(y) || running_id(rows, y)) by {
        }
    } else {
        let r = rows[0];
        let rest = rows.drop_first();
        assert(taken_up(rows[0]) <==> is_running(rows[0]));
        let m1 = if taken_up(r) { claimed(m, r.id, r.cpu, r.memory_mb) } else { m };
        assert(recoverable(rest)) by {
            assert forall|k: int| 0 <= k < rest.len() implies (taken_up(#[trigger] rest[k]) <==> is_running(rest[k])) by {
                assert(rest[k] == rows[k + 1]);
            }
        }
        lemma_init_fold(m1, rest);
        lemma_sum_first(rows, cpu_of());
        lemma_sum_first(rows, memory_of());
        lemma_sum_first(rows, one_each());
        assert forall|y: Seq<char>| #[trigger] n.handles.contains(y) <==> (m.handles.contains(y) || running_id(rows, y)) by {
            if taken_up(r) {
                lemma_with_id_contains(m.handles, r.id, y);
            }
            if running_id(rest, y) {
                let k = choose|k: int| 0 <= k < rest.len() && #[trigger] rest[k].id == y && is_running(rest[k]);
                assert(rows[k + 1] == rest[k]);
            }
            if running_id(rows, y) {
                let k = choose|k: int| 0 <= k < rows.len() && #[trigger] rows[k].id == y && is_running(rows[k]);
                if k > 0 {
                    assert(rest[k - 1] == rows[k]);
                }
            }
        }
    }
}

/// Start-up makes the accounting consistent: a manager that holds
/// nothing yet, over a store whose running boxes all have machine ids and
/// whose boxes being created have none, takes up exactly the running boxes.
pub proof fn law_init_accounting(m: ManagerView)
    requires
        m.total_cpu == 0,
        m.total_memory_mb == 0,
        m.box_count == 0,
        m.handles.len() == 0,
        ids_unique(m.store.boxes),
        recoverable(m.store.boxes),
        crate::box_manager::init_fits(m, crate::box_manager::listing(m.store)),
    ensures
        accounting_consistent(crate::box_manager::init_fold(m, crate::box_manager::listing(m.store))),
{
    broadcast use vstd::seq_lib::group_to_multiset_ensures;
    let boxes = m.store.boxes;
    let kept = keep(boxes, crate::store::status_filter(None));
    let rows = crate::box_manager::listing(m.store);
    lemma_keep_all(boxes, crate::store::status_filter(None));
    crate::seqs::lemma_order_by_multiset(kept, crate::store::box_newer_first());
    assert(rows.to_multiset() == boxes.to_multiset());
    assert(recoverable(rows)) by {
        assert forall|k: int| 0 <= k < rows.len() implies (taken_up(#[trigger] rows[k]) <==> is_running(rows[k])) by {
            assert(rows.to_multiset().count(rows[k]) > 0);
            assert(boxes.contains(rows[k]));
            let w = choose|w: int| 0 <= w < boxes.len() && boxes[w] == rows[k];
        }
    }
    lemma_init_fold(m, rows);
    lemma_sum_permutation(rows, boxes, cpu_of());
    lemma_sum_permutation(rows, boxes, memory_of());
    lemma_sum_permutation(rows, boxes, one_each());
    let n = crate::box_manager::init_fold(m, rows);
    assert forall|y: Seq<char>| #[trigger] n.handles.contains(y) <==> running_id(boxes, y) by {
        if m.handles.contains(y) {
            let k = choose|k: int| 0 <= k < m.handles.len() && m.handles[k] == y;
        }
        if running_id(rows, y) {
            let k = choose|k: int| 0 <= k < rows.len() && #[trigger] rows[k].id == y && is_running(rows[k]);
            assert(rows.to_multiset().count(rows[k]) > 0);
            assert(boxes.contains(rows[k]));
            let w = choose|w: int| 0 <= w < boxes.len() && boxes[w] == rows[k];
            assert(boxes[w].id == y);
        }
        if running_id(boxes, y) {
            let k = choose|k: int| 0 <= k < boxes.len() && #[trigger] boxes[k].id == y && is_running(boxes[k]);
            assert(boxes.to_multiset().count(boxes[k]) > 0);
            assert(rows.contains(boxes[k]));
            let w = choose|w: int| 0 <= w < rows.len() && rows[w] == boxes[k];
            assert(rows[w].id == y);
        }
    }
}

/// The store keeps box ids unique: a box is inserted only under a free
/// id, an update never changes an id, and a deletion only removes boxes.
pub proof fn law_store_keeps_unique_ids(
    boxes: Seq<BoxRowView>,
    row: BoxRowView,
    name: Option<Seq<char>>,
    id: Seq<char>,
    ups: Seq<(Seq<char>, BoxValueView)>,
    x: Seq<char>,
)
    requires
        ids_unique(boxes),
    ensures
        create_box_conflict(boxes, row.id, name) is None ==> ids_unique(boxes.push(row)),
        ids_unique(updated_boxes(boxes, id, ups)),
        ids_unique(without_box(boxes, x)),
{
    if create_box_conflict(boxes, row.id, name) is None {
        let pushed = boxes.push(row);
        let i = boxes.len() as int;
        lemma_first_index(boxes, box_has_id(row.id));
        assert forall|a: int, b: int| 0 <= a < pushed.len() && 0 <= b < pushed.len() && a != b
            implies #[trigger] pushed[a].id != #[trigger] pushed[b].id by {
            if a < i && b < i {
                assert(pushed[a] == boxes[a] && pushed[b] == boxes[b]);
            } else if a < i {
                assert(pushed[a] == boxes[a]);
                assert(!box_has_id(row.id)(boxes[a]));
            } else {
                assert(pushed[b] == boxes[b]);
                assert(!box_has_id(row.id)(boxes[b]));
            }
        }
    }
    lemma_updated_at(boxes, id, ups);
    lemma_unique_without(boxes, x);
}

/// The first position that satisfies a predicate is the same in two
/// sequences whose elements satisfy it at the same positions.
proof fn lemma_first_index_same(s: Seq<BoxRowView>, t: Seq<BoxRowView>, p: spec_fn(BoxRowView) -> bool)
    requires
        s.len() == t.len(),
        forall|k: int| 0 <= k < s.len() ==> p(#[trigger] s[k]) == p(t[k]),
    ensures
        first_index(s, p) == first_index(t, p),
    decreases s.len(),
{
    if s.len() > 0 && !p(s[0]) {
        assert forall|k: int| 0 <= k < s.drop_first().len() implies p(#[trigger] s.drop_first()[k]) == p(t.drop_first()[k]) by {
            assert(s.drop_first()[k] == s[k + 1]);
            assert(t.drop_first()[k] == t[k + 1]);
        }
        lemma_first_index_same(s.drop_first(), t.drop_first(), p);
    }
}

/// Stopping a running box and starting it again gives the totals back
/// as they were, and the box runs again: a stop is undone by a start
/// when the host's limits held before.
pub proof fn law_stop_then_start_restores(m: ManagerView, key: Seq<char>, t1: Seq<char>, t2: Seq<char>)
    requires
        lookup_box(m.store.boxes, key) matches Some(b) && b.status == running(),
        stop_box_fits(m, key),
        m.total_cpu <= m.max_cpu,
        m.total_memory_mb <= m.max_memory_mb,
    ensures
        ({
            let m1 = stop_box_next(m, key, t1);
            let m2 = start_box_next(m1, key, t2);
            &&& start_box_answer(m1, key, t2) is Ok
            &&& m2.total_cpu == m.total_cpu
            &&& m2.total_memory_mb == m.total_memory_mb
            &&& m2.box_count == m.box_count
            &&& lookup_box(m2.store.boxes, key) matches Some(r) && r.status == running()
        }),
{
    let b = lookup_box(m.store.boxes, key)->0;
    let boxes = m.store.boxes;
    let i = lemma_lookup_box_index(boxes, key);
    let m1 = stop_box_next(m, key, t1);
    let nb = updated_boxes(boxes, b.id, stop_updates(t1));
    lemma_stop_row(b, t1);
    lemma_status_names();
    lemma_updated_at(boxes, b.id, stop_updates(t1));
    assert(m1.store.boxes == nb);
    // Every row keeps its id and its name, so the key finds the same position.
    assert forall|k: int| 0 <= k < nb.len() implies #[trigger] nb[k].id == boxes[k].id && nb[k].name == boxes[k].name by {
        if boxes[k].id == b.id {
            lemma_stop_row(boxes[k], t1);
        }
    }
    assert forall|k: int| 0 <= k < nb.len() implies box_has_id(key)(#[trigger] nb[k]) == box_has_id(key)(boxes[k]) by {
        assert(nb[k].id == boxes[k].id);
    }
    assert forall|k: int| 0 <= k < nb.len() implies box_has_name(key)(#[trigger] nb[k]) == box_has_name(key)(boxes[k]) by {
        assert(nb[k].name == boxes[k].name);
    }
    lemma_first_index_same(nb, boxes, box_has_id(key));
    lemma_first_index_same(nb, boxes, box_has_name(key));
    lemma_first_index(boxes, box_has_id(key));
    lemma_first_index(boxes, box_has_name(key));
    assert(lookup_box(nb, key) == Some(nb[i])) by {
        match first_index(boxes, box_has_id(key)) {
            Some(j) => {
                if j != i {
                    assert(boxes[j].id == key);
                    assert(b.id == boxes[i].id);
                }
            },
            None => {},
        }
    }
    let b1 = nb[i];
    assert(b1 == apply_updates(b, stop_updates(t1)));
    assert(b1.status == "stopped"@);
    let ups = start_updates(t2);
    let nb2 = updated_boxes(nb, b1.id, ups);
    lemma_start_row(b1, t2);
    lemma_updated_at(nb, b1.id, ups);
    let m2 = start_box_next(m1, key, t2);
    assert(m2.store.boxes == nb2);
    assert forall|k: int| 0 <= k < nb2.len() implies box_has_id(key)(#[trigger] nb2[k]) == box_has_id(key)(nb[k]) by {
        if nb[k].id == b1.id {
            lemma_start_row(nb[k], t2);
        }
    }
    assert forall|k: int| 0 <= k < nb2.len() implies box_has_name(key)(#[trigger] nb2[k]) == box_has_name(key)(nb[k]) by {
        if nb[k].id == b1.id {
            lemma_start_row(nb[k], t2);
        }
    }
    lemma_first_index_same(nb2, nb, box_has_id(key));
    lemma_first_index_same(nb2, nb, box_has_name(key));
    lemma_updated_found(nb, b1.id, ups, i);
    assert(nb2[i].status == running());
}

/// An updated box is found by its id with the updates applied.
pub proof fn law_updated_box_found(boxes: Seq<BoxRowView>, id: Seq<char>, ups: Seq<(Seq<char>, BoxValueView)>)
    requires
        box_by_id(boxes, id) is Some,
    ensures
        box_by_id(updated_boxes(boxes, id, ups), id) == Some(apply_updates(box_by_id(boxes, id)->0, ups)),
{
    let u = updated_boxes(boxes, id, ups);
    lemma_updated_at(boxes, id, ups);
    assert forall|k: int| 0 <= k < u.len() implies box_has_id(id)(#[trigger] u[k]) == box_has_id(id)(boxes[k]) by {
        assert(u[k].id == boxes[k].id);
    }
    lemma_first_index_same(u, boxes, box_has_id(id));
    lemma_first_index(boxes, box_has_id(id));
}

/// The totals are within the host's limits.
pub open spec fn within_limits(m: ManagerView) -> bool {
    m.total_cpu <= m.max_cpu && m.total_memory_mb <= m.max_memory_mb
}

/// No box holds a negative amount of CPU or memory.
pub open spec fn resources_nonneg(boxes: Seq<BoxRowView>) -> bool {
    forall|k: int| 0 <= k < boxes.len() ==> (#[trigger] boxes[k]).cpu >= 0 && boxes[k].memory_mb >= 0
}

/// Every operation keeps the totals within the host's limits, as long as
/// no box holds a negative amount of CPU or memory.
pub proof fn law_limits_kept(
    m: ManagerView,
    key: Seq<char>,
    ts: Seq<char>,
    force: bool,
    a: CreateArgs,
    missing: Option<Seq<char>>,
    id: Seq<char>,
    cutoff: Seq<char>,
)
    requires
        within_limits(m),
        resources_nonneg(m.store.boxes),
        stop_box_fits(m, key),
        start_box_fits(m, key),
        remove_box_fits(m, key, force),
        create_box_fits(m, a),
    ensures
        within_limits(stop_box_next(m, key, ts)),
        within_limits(start_box_next(m, key, ts)),
        within_limits(remove_box_next(m, key, force)),
        within_limits(create_box_next(m, a, missing, id, ts, ts)),
        within_limits(with_store(m, delete_all(m.store, gc_ids(m.store, cutoff)))),
{
    if let Some(b) = lookup_box(m.store.boxes, key) {
        let i = lemma_lookup_box_index(m.store.boxes, key);
        assert(m.store.boxes[i].cpu >= 0 && m.store.boxes[i].memory_mb >= 0);
    }
}

/// A call that changes the manager, with what it draws from outside (an
/// id, the times, which volume host path is missing) given as values.
pub enum ManagerCall {
    Create {
        args: CreateArgs,
        missing: Option<Seq<char>>,
        id: Seq<char>,
        t_created: Seq<char>,
        t_started: Seq<char>,
    },
    Stop { key: Seq<char>, ts: Seq<char> },
    Start { key: Seq<char>, ts: Seq<char> },
    Remove { key: Seq<char>, force: bool },
    Exec {
        key: Seq<char>,
        cmd: Seq<String>,
        env: Option<Map<String, String>>,
        workdir: Option<Seq<char>>,
        timeout_ms: Option<i64>,
        exec_id: Seq<char>,
        ts: Seq<char>,
    },
    Cancel { exec_id: Seq<char>, ts: Seq<char> },
    Complete { exec_id: Seq<char>, t_event: Seq<char>, t_finish: Seq<char> },
    Gc { cutoff: Seq<char> },
}

/// The manager after one call.
pub open spec fn call_next(m: ManagerView, c: ManagerCall) -> ManagerView {
    match c {
        ManagerCall::Create { args, missing, id, t_created, t_started } =>
            create_box_next(m, args, missing, id, t_created, t_started),
        ManagerCall::Stop { key, ts } => stop_box_next(m, key, ts),
        ManagerCall::Start { key, ts } => start_box_next(m, key, ts),
        ManagerCall::Remove { key, force } => remove_box_next(m, key, force),
        ManagerCall::Exec { key, cmd, env, workdir, timeout_ms, exec_id, ts } =>
            exec_in_box_next(m, key, cmd, env, workdir, timeout_ms, exec_id, ts),
        ManagerCall::Cancel { exec_id, ts } => cancel_exec_next(m, exec_id, ts),
        ManagerCall::Complete { exec_id, t_event, t_finish } => complete_exec_next(m, exec_id, t_event, t_finish),
        ManagerCall::Gc { cutoff } => with_store(m, delete_all(m.store, gc_ids(m.store, cutoff))),
    }
}

/// Whether a call's totals stay within `i64`, as the call requires.
pub open spec fn call_fits(m: ManagerView, c: ManagerCall) -> bool {
    match c {
        ManagerCall::Create { args, .. } => create_box_fits(m, args),
        ManagerCall::Stop { key, .. } => stop_box_fits(m, key),
        ManagerCall::Start { key, .. } => start_box_fits(m, key),
        ManagerCall::Remove { key, force } => remove_box_fits(m, key, force),
        _ => true,
    }
}

/// The manager after calls made one after another.
pub open spec fn after_calls(m: ManagerView, calls: Seq<ManagerCall>) -> ManagerView
    decreases calls.len(),
{
    if calls.len() == 0 {
        m
    } else {
        after_calls(call_next(m, calls[0]), calls.drop_first())
    }
}

/// Whether each call, made in turn, fits where it is made.
pub open spec fn calls_fit(m: ManagerView, calls: Seq<ManagerCall>) -> bool
    decreases calls.len(),
{
    calls.len() == 0 || (call_fits(m, calls[0]) && calls_fit(call_next(m, calls[0]), calls.drop_first()))
}

/// Whether every creation among the calls asks for no negative CPU or memory.
pub open spec fn creations_nonneg(calls: Seq<ManagerCall>) -> bool {
    forall|k: int| 0 <= k < calls.len() ==> match #[trigger] calls[k] {
        ManagerCall::Create { args, .. } => args.cpu >= 0 && args.memory_mb >= 0,
        _ => true,
    }
}

proof fn lemma_call_keeps_accounting(m: ManagerView, c: ManagerCall)
    requires
        accounting_consistent(m),
        call_fits(m, c),
    ensures
        accounting_consistent(call_next(m, c)),
        call_next(m, c).max_cpu == m.max_cpu && call_next(m, c).max_memory_mb == m.max_memory_mb,
{
    match c {
        ManagerCall::Create { args, missing, id, t_created, t_started } =>
            law_create_keeps_accounting(m, args, missing, id, t_created, t_started),
        ManagerCall::Stop { key, ts } => law_stop_keeps_accounting(m, key, ts),
        ManagerCall::Start { key, ts } => law_start_keeps_accounting(m, key, ts),
        ManagerCall::Remove { key, force } => law_remove_keeps_accounting(m, key, force),
        ManagerCall::Exec { key, cmd, env, workdir, timeout_ms, exec_id, ts } =>
            law_exec_keeps_accounting(m, key, cmd, env, workdir, timeout_ms, exec_id, ts, ts),
        ManagerCall::Cancel { exec_id, ts } => law_exec_keeps_accounting(m, exec_id, Seq::empty(), None, None, None, exec_id, ts, ts),
        ManagerCall::Complete { exec_id, t_event, t_finish } =>
            law_exec_keeps_accounting(m, exec_id, Seq::empty(), None, None, None, exec_id, t_event, t_finish),
        ManagerCall::Gc { cutoff } => law_gc_keeps_accounting(m, cutoff),
    }
}

proof fn lemma_updated_nonneg(boxes: Seq<BoxRowView>, id: Seq<char>, ups: Seq<(Seq<char>, BoxValueView)>)
    requires
        resources_nonneg(boxes),
        forall|r: BoxRowView| #[trigger] apply_updates(r, ups).cpu == r.cpu && apply_updates(r, ups).memory_mb == r.memory_mb,
    ensures
        resources_nonneg(updated_boxes(boxes, id, ups)),
{
    lemma_updated_at(boxes, id, ups);
    let u = updated_boxes(boxes, id, ups);
    assert forall|k: int| 0 <= k < u.len() implies (#[trigger] u[k]).cpu >= 0 && u[k].memory_mb >= 0 by {
        assert(boxes[k].cpu >= 0 && boxes[k].memory_mb >= 0);
        if boxes[k].id == id {
            assert(apply_updates(boxes[k], ups).cpu == boxes[k].cpu);
        }
    }
}

proof fn lemma_kept_nonneg(boxes: Seq<BoxRowView>, x: Seq<char>)
    requires
        resources_nonneg(boxes),
    ensures
        resources_nonneg(keep(boxes, box_id_other_than(x))),
{
    let kept = keep(boxes, box_id_other_than(x));
    lemma_keep_elements(boxes, box_id_other_than(x));
    assert forall|k: int| 0 <= k < kept.len() implies (#[trigger] kept[k]).cpu >= 0 && kept[k].memory_mb >= 0 by {
        assert(boxes.contains(kept[k]));
        let w = choose|w: int| 0 <= w < boxes.len() && boxes[w] == kept[k];
        assert(boxes[w].cpu >= 0);
    }
}

proof fn lemma_delete_all_nonneg(s: StoreView, ids: Seq<Seq<char>>)
    requires
        resources_nonneg(s.boxes),
    ensures
        resources_nonneg(delete_all(s, ids).boxes),
    decreases ids.len(),
{
    if ids.len() > 0 {
        lemma_kept_nonneg(s.boxes, ids[0]);
        lemma_delete_all_nonneg(after_delete_box(s, ids[0]), ids.drop_first());
    }
}

/// One call keeps the totals within the limits, and keeps every box's CPU
/// and memory non-negative when a creation asks for none negative.
proof fn lemma_call_keeps_limits(m: ManagerView, c: ManagerCall)
    requires
        within_limits(m),
        resources_nonneg(m.store.boxes),
        call_fits(m, c),
        c matches ManagerCall::Create { args, .. } ==> args.cpu >= 0 && args.memory_mb >= 0,
    ensures
        within_limits(call_next(m, c)),
        resources_nonneg(call_next(m, c).store.boxes),
{
    let boxes = m.store.boxes;
    match c {
        ManagerCall::Create { args, missing, id, t_created, t_started } => {
            let a = args;
            if create_refusal(m, a, missing) is None && create_box_conflict(boxes, id, a.name) is None {
                let row = new_box_row(id, a.name, a.image, a.cpu, a.memory_mb, a.disk_size_gb, a.network, a.workdir,
                    a.env, a.volumes, t_created);
                let pushed = boxes.push(row);
                assert(resources_nonneg(pushed)) by {
                    assert forall|k: int| 0 <= k < pushed.len() implies (#[trigger] pushed[k]).cpu >= 0 && pushed[k].memory_mb >= 0 by {
                        if k < boxes.len() {
                            assert(pushed[k] == boxes[k]);
                        }
                    }
                }
                assert forall|r: BoxRowView| #[trigger] apply_updates(r, launch_updates(id, t_started)).cpu == r.cpu
                    && apply_updates(r, launch_updates(id, t_started)).memory_mb == r.memory_mb by {
                    lemma_launch_row(r, id, t_started);
                }
                lemma_updated_nonneg(pushed, id, launch_updates(id, t_started));
            }
        },
        ManagerCall::Stop { key, ts } => {
            if let Some(b) = lookup_box(boxes, key) {
                let i = lemma_lookup_box_index(boxes, key);
                assert(boxes[i].cpu >= 0 && boxes[i].memory_mb >= 0);
                assert forall|r: BoxRowView| #[trigger] apply_updates(r, stop_updates(ts)).cpu == r.cpu
                    && apply_updates(r, stop_updates(ts)).memory_mb == r.memory_mb by {
                    lemma_stop_row(r, ts);
                }
                lemma_updated_nonneg(boxes, b.id, stop_updates(ts));
            }
        },
        ManagerCall::Start { key, ts } => {
            if let Some(b) = lookup_box(boxes, key) {
                assert forall|r: BoxRowView| #[trigger] apply_updates(r, start_updates(ts)).cpu == r.cpu
                    && apply_updates(r, start_updates(ts)).memory_mb == r.memory_mb by {
                    lemma_start_row(r, ts);
                }
                lemma_updated_nonneg(boxes, b.id, start_updates(ts));
            }
        },
        ManagerCall::Remove { key, force } => {
            if let Some(b) = lookup_box(boxes, key) {
                let i = lemma_lookup_box_index(boxes, key);
                assert(boxes[i].cpu >= 0 && boxes[i].memory_mb >= 0);
                lemma_kept_nonneg(boxes, b.id);
            }
        },
        ManagerCall::Exec { .. } => {},
        ManagerCall::Cancel { .. } => {},
        ManagerCall::Complete { .. } => {},
        ManagerCall::Gc { cutoff } => {
            lemma_delete_all_nonneg(m.store, gc_ids(m.store, cutoff));
        },
    }
}

/// The accounting holds over any sequence of calls: from a consistent
/// manager (a fresh one, or one just started up), after any calls that
/// create, stop, start or remove boxes, run, cancel or complete commands,
/// or collect old boxes, the totals that `resource_usage` reports are the
/// sums over the running boxes and the handles are exactly the running
/// boxes. When no box and no creation holds negative CPU or memory, the
/// totals also stay within the host's limits, which never change.
pub proof fn law_accounting_over_calls(m: ManagerView, calls: Seq<ManagerCall>)
    requires
        accounting_consistent(m),
        calls_fit(m, calls),
    ensures
        accounting_consistent(after_calls(m, calls)),
        after_calls(m, calls).max_cpu == m.max_cpu,
        after_calls(m, calls).max_memory_mb == m.max_memory_mb,
        within_limits(m) && resources_nonneg(m.store.boxes) && creations_nonneg(calls)
            ==> within_limits(after_calls(m, calls)),
    decreases calls.len(),
{
    if calls.len() > 0 {
        let c = calls[0];
        let rest = calls.drop_first();
        lemma_call_keeps_accounting(m, c);
        if within_limits(m) && resources_nonneg(m.store.boxes) && creations_nonneg(calls) {
            assert(c matches ManagerCall::Create { args, .. } ==> args.cpu >= 0 && args.memory_mb >= 0) by {
                assert(calls[0] == c);
            }
            lemma_call_keeps_limits(m, c);
            assert(creations_nonneg(rest)) by {
                assert forall|k: int| 0 <= k < rest.len() implies match #[trigger] rest[k] {
                    ManagerCall::Create { args, .. } => args.cpu >= 0 && args.memory_mb >= 0,
                    _ => true,
                } by {
                    assert(rest[k] == calls[k + 1]);
                }
            }
        }
        law_accounting_over_calls(call_next(m, c), rest);
    }
}

/// From start-up on, the accounting holds: a manager that holds nothing
/// yet, started over a store whose running boxes all have machine ids and
/// whose boxes being created have none, keeps totals equal to the sums
/// over its running boxes through any sequence of calls.
pub proof fn law_accounting_from_start(m: ManagerView, calls: Seq<ManagerCall>)
    requires
        m.total_cpu == 0,
        m.total_memory_mb == 0,
        m.box_count == 0,
        m.handles.len() == 0,
        ids_unique(m.store.boxes),
        recoverable(m.store.boxes),
        crate::box_manager::init_fits(m, crate::box_manager::listing(m.store)),
        calls_fit(crate::box_manager::init_fold(m, crate::box_manager::listing(m.store)), calls),
    ensures
        accounting_consistent(after_calls(crate::box_manager::init_fold(m, crate::box_manager::listing(m.store)), calls)),
{
    law_init_accounting(m);
    law_accounting_over_calls(crate::box_manager::init_fold(m, crate::box_manager::listing(m.store)), calls);
}

/// A box that was just created can be removed again by force, and its
/// removal gives back exactly what its creation took: the totals and the
/// boxes are as before the creation. A run whose command cannot be
/// started rests on this.
pub proof fn law_created_box_removed_restores(
    m: ManagerView,
    a: CreateArgs,
    missing: Option<Seq<char>>,
    id: Seq<char>,
    t_created: Seq<char>,
    t_started: Seq<char>,
)
    requires
        create_box_fits(m, a),
        create_box_answer(m, a, missing, id, t_created, t_started) is Ok,
    ensures
        remove_box_fits(create_box_next(m, a, missing, id, t_created, t_started), id, true),
        ({
            let m2 = remove_box_next(create_box_next(m, a, missing, id, t_created, t_started), id, true);
            &&& m2.total_cpu == m.total_cpu
            &&& m2.total_memory_mb == m.total_memory_mb
            &&& m2.box_count == m.box_count
            &&& m2.store.boxes == m.store.boxes
            &&& m2.max_cpu == m.max_cpu && m2.max_memory_mb == m.max_memory_mb
        }),
{
    let boxes = m.store.boxes;
    let n = boxes.len() as int;
    let row = new_box_row(id, a.name, a.image, a.cpu, a.memory_mb, a.disk_size_gb, a.network, a.workdir,
        a.env, a.volumes, t_created);
    let pushed = boxes.push(row);
    let ups = launch_updates(id, t_started);
    let nb = updated_boxes(pushed, id, ups);
    let m1 = create_box_next(m, a, missing, id, t_created, t_started);
    lemma_status_names();
    lemma_first_index(boxes, box_has_id(id));
    assert forall|k: int| 0 <= k < boxes.len() implies (#[trigger] boxes[k]).id != id by {
        assert(!box_has_id(id)(boxes[k]));
    }
    assert(pushed[n] == row);
    lemma_launch_row(row, id, t_started);
    lemma_updated_at(pushed, id, ups);
    let b = apply_updates(row, ups);
    assert(nb =~= boxes.push(b)) by {
        assert forall|k: int| 0 <= k < nb.len() implies nb[k] == boxes.push(b)[k] by {
            if k < n {
                assert(pushed[k] == boxes[k]);
            }
        }
    }
    assert(m1.store.boxes == nb);
    lemma_first_index(nb, box_has_id(id));
    assert(box_has_id(id)(nb[n]));
    assert forall|k: int| 0 <= k < n implies !box_has_id(id)(#[trigger] nb[k]) by {
        assert(nb[k] == boxes[k]);
    }
    assert(lookup_box(nb, id) == Some(b));
    assert(b.status == running() && b.cpu == a.cpu && b.memory_mb == a.memory_mb && b.id == id);
    assert(keep(nb, box_id_other_than(id)) == boxes) by {
        assert(nb.drop_last() =~= boxes);
        assert(nb.last() == b);
        assert(!box_id_other_than(id)(b));
        assert forall|k: int| 0 <= k < boxes.len() implies box_id_other_than(id)(#[trigger] boxes[k]) by {}
        lemma_keep_all(boxes, box_id_other_than(id));
    }
}

proof fn lemma_sum_nonneg(boxes: Seq<BoxRowView>, f: spec_fn(BoxRowView) -> int)
    requires
        forall|k: int| 0 <= k < boxes.len() ==> f(#[trigger] boxes[k]) >= 0,
    ensures
        running_sum(boxes, f) >= 0,
    decreases boxes.len(),
{
    if boxes.len() > 0 {
        let d = boxes.drop_last();
        assert forall|k: int| 0 <= k < d.len() implies f(#[trigger] d[k]) >= 0 by {
            assert(d[k] == boxes[k]);
        }
        lemma_sum_nonneg(d, f);
        assert(f(boxes[boxes.len() - 1]) >= 0);
    }
}

/// Giving a box's resources back always fits the totals when the
/// accounting is consistent and no box holds negative CPU or memory: what
/// is left is the sum over the other running boxes, between 0 and the
/// total. So stopping or removing any box needs no test of the totals.
pub proof fn law_release_fits(m: ManagerView, key: Seq<char>, force: bool)
    requires
        accounting_consistent(m),
        resources_nonneg(m.store.boxes),
    ensures
        remove_box_fits(m, key, force),
        stop_box_fits(m, key),
{
    let boxes = m.store.boxes;
    if let Some(b) = lookup_box(boxes, key) {
        if b.status == running() {
            let i = lemma_lookup_box_index(boxes, key);
            let w = without_box(boxes, b.id);
            lemma_sum_without(boxes, b.id, i, cpu_of());
            lemma_sum_without(boxes, b.id, i, memory_of());
            lemma_kept_nonneg(boxes, b.id);
            assert forall|k: int| 0 <= k < w.len() implies cpu_of()(#[trigger] w[k]) >= 0 by {}
            assert forall|k: int| 0 <= k < w.len() implies memory_of()(#[trigger] w[k]) >= 0 by {}
            assert forall|k: int| 0 <= k < boxes.len() implies one_each()(#[trigger] boxes[k]) >= 0 by {}
            lemma_sum_nonneg(w, cpu_of());
            lemma_sum_nonneg(w, memory_of());
            lemma_sum_nonneg(boxes, one_each());
            assert(boxes[i].cpu >= 0 && boxes[i].memory_mb >= 0);
            assert(share(boxes[i], cpu_of()) == b.cpu);
            assert(share(boxes[i], memory_of()) == b.memory_mb);
        }
    }
}

/// A run gives its box back: after a run is started and then finished
/// (its box removed by force), with no other call between, the totals and
/// the boxes are as they were before the run, and the removal fits. A run
/// whose start failed already gave its box back (see `start_run`).
pub proof fn law_run_returns_its_box(
    m: ManagerView,
    req: RunRequest,
    missing: Option<Seq<char>>,
    box_id: Seq<char>,
    t_created: Seq<char>,
    t_started: Seq<char>,
    exec_id: Seq<char>,
    ts: Seq<char>,
)
    requires
        create_box_fits(m, run_args(req)),
        run_start_answer(m, req, missing, box_id, t_created, t_started, exec_id, ts) is Ok,
    ensures
        remove_box_fits(run_start_next(m, req, missing, box_id, t_created, t_started, exec_id, ts), box_id, true),
        ({
            let m3 = remove_box_next(run_start_next(m, req, missing, box_id, t_created, t_started, exec_id, ts), box_id, true);
            &&& m3.total_cpu == m.total_cpu
            &&& m3.total_memory_mb == m.total_memory_mb
            &&& m3.box_count == m.box_count
            &&& m3.store.boxes == m.store.boxes
        }),
{
    let a = run_args(req);
    let m1 = create_box_next(m, a, missing, box_id, t_created, t_started);
    let m2 = run_start_next(m, req, missing, box_id, t_created, t_started, exec_id, ts);
    law_created_box_removed_restores(m, a, missing, box_id, t_created, t_started);
    assert(m2.store.boxes == m1.store.boxes);
    assert(m2.total_cpu == m1.total_cpu && m2.total_memory_mb == m1.total_memory_mb && m2.box_count == m1.box_count);
    assert(remove_box_next(m2, box_id, true).store.boxes == remove_box_next(m1, box_id, true).store.boxes);
}

} // verus!
