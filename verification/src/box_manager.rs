//! The box manager: the lifecycle of boxes and executions, with the
//! accounting of the CPU and memory that running boxes hold against the
//! host's limits.
use vstd::prelude::*;
use std::collections::HashMap;
use crate::error::{BoxRunError, ErrorCode};
use crate::events::{Event, EventBus, EventView, BusView, Subscription, Received, published, finished, subscribed, receive, received_view, unsubscribed};
use crate::models::{Volume, opt_view, RunRequest, RunResponse};
use crate::routes::{collect_run_output, run_output};
use crate::accounting::{law_refused_create_changes_nothing, law_refused_exec_request_changes_nothing, law_created_box_removed_restores};
use crate::seqs::keep;
use crate::store::{
    BoxRow, BoxRowView, BoxValue, BoxValueView, ExecRow, ExecRowView, Store, StoreView,
    lookup_box, box_by_id, exec_by_id, updated_boxes, updates_view, update_problem, is_box_column, is_required_text_column, is_int_column,
    value_problem, first_bad_column, first_value_problem, new_box_row, new_exec_row,
    not_null_problem, is_not_null_column, lemma_no_null_left, is_null_value, ids_unique, lemma_store_ids_unique,
    create_box_conflict, create_exec_conflict, finish_execs, cancel_execs, with_event,
    after_delete_box, collectable, status_filter, box_newer_first, opt_str_view, env_view,
    volumes_view, opt_box_view, box_views, EventRowView, event_wanted, event_seq_first,
};
use crate::seqs::order_by;
use crate::text::{str_eq, join2, join3, i64_to_text, int_text};

verus! {

/// Total resources held by the boxes that are running.
#[derive(Debug, Default)]
pub struct ResourceUsage {
    pub total_cpu: i64,
    pub total_memory_mb: i64,
    pub box_count: i64,
}

/// The content of the manager.
pub struct ManagerView {
    pub store: StoreView,
    pub bus: BusView,
    pub total_cpu: i64,
    pub total_memory_mb: i64,
    pub box_count: i64,
    /// Executions whose completion is still to come.
    pub tasks: Seq<Seq<char>>,
    /// Boxes whose virtual machine the manager holds.
    pub handles: Seq<Seq<char>>,
    pub max_cpu: i64,
    pub max_memory_mb: i64,
}

/// An error as content: its code and its message.
pub open spec fn err_view(e: BoxRunError) -> (ErrorCode, Seq<char>) {
    (e.code, e.message@)
}

/// A box result as content.
pub open spec fn box_result(r: Result<BoxRow, BoxRunError>) -> Result<BoxRowView, (ErrorCode, Seq<char>)> {
    match r {
        Ok(b) => Ok(b@),
        Err(e) => Err(err_view(e)),
    }
}

/// An execution result as content.
pub open spec fn exec_result(r: Result<ExecRow, BoxRunError>) -> Result<ExecRowView, (ErrorCode, Seq<char>)> {
    match r {
        Ok(x) => Ok(x@),
        Err(e) => Err(err_view(e)),
    }
}

/// A result without a value as content.
pub open spec fn unit_result(r: Result<(), BoxRunError>) -> Result<(), (ErrorCode, Seq<char>)> {
    match r {
        Ok(()) => Ok(()),
        Err(e) => Err(err_view(e)),
    }
}

/// The set of held ids with one more.
pub open spec fn with_id(ids: Seq<Seq<char>>, id: Seq<char>) -> Seq<Seq<char>> {
    if ids.contains(id) { ids } else { ids.push(id) }
}

/// Whether an id differs from the given one.
pub open spec fn id_other_than(id: Seq<char>) -> spec_fn(Seq<char>) -> bool {
    |h: Seq<char>| h != id
}

/// The set of held ids without one.
pub open spec fn without_id(ids: Seq<Seq<char>>, id: Seq<char>) -> Seq<Seq<char>> {
    keep(ids, id_other_than(id))
}

pub open spec fn not_found(key: Seq<char>) -> (ErrorCode, Seq<char>) {
    (ErrorCode::BoxNotFound, "Box '"@ + key + "' not found"@)
}

pub open spec fn running() -> Seq<char> {
    "running"@
}

/// The result of looking up a box.
pub open spec fn get_box_result(m: ManagerView, key: Seq<char>) -> Result<BoxRowView, (ErrorCode, Seq<char>)> {
    match lookup_box(m.store.boxes, key) {
        Some(b) => Ok(b),
        None => Err(not_found(key)),
    }
}

/// The result of the store's update of a box, as the manager reports it.
pub open spec fn updated_result(s: StoreView, id: Seq<char>) -> Result<BoxRowView, (ErrorCode, Seq<char>)> {
    match box_by_id(s.boxes, id) {
        Some(r) => Ok(r),
        None => Err((ErrorCode::RuntimeError, "Box '"@ + id + "' not found"@)),
    }
}

/// The manager with a box's resources given back and its handle dropped.
pub open spec fn released(m: ManagerView, b: BoxRowView) -> ManagerView {
    ManagerView {
        handles: without_id(m.handles, b.id),
        total_cpu: (m.total_cpu - b.cpu) as i64,
        total_memory_mb: (m.total_memory_mb - b.memory_mb) as i64,
        box_count: (m.box_count - 1) as i64,
        ..m
    }
}

/// The manager with a box's resources taken and its handle held.
pub open spec fn claimed(m: ManagerView, id: Seq<char>, cpu: i64, memory_mb: i64) -> ManagerView {
    ManagerView {
        handles: with_id(m.handles, id),
        total_cpu: (m.total_cpu + cpu) as i64,
        total_memory_mb: (m.total_memory_mb + memory_mb) as i64,
        box_count: (m.box_count + 1) as i64,
        ..m
    }
}

/// Whether taking a box's resources keeps the totals within `i64`.
pub open spec fn can_claim(m: ManagerView, cpu: i64, memory_mb: i64) -> bool {
    &&& i64::MIN <= m.total_cpu + cpu
    &&& i64::MIN <= m.total_memory_mb + memory_mb
    &&& m.box_count < i64::MAX
}

/// Whether giving a box's resources back keeps the totals within `i64`.
pub open spec fn can_release(m: ManagerView, b: BoxRowView) -> bool {
    &&& i64::MIN <= m.total_cpu - b.cpu <= i64::MAX
    &&& i64::MIN <= m.total_memory_mb - b.memory_mb <= i64::MAX
    &&& m.box_count > i64::MIN
}

pub open spec fn with_store(m: ManagerView, s: StoreView) -> ManagerView {
    ManagerView { store: s, ..m }
}

pub open spec fn stop_updates(ts: Seq<char>) -> Seq<(Seq<char>, BoxValueView)> {
    seq![("status"@, BoxValueView::Text("stopped"@)), ("stopped_at"@, BoxValueView::Text(ts))]
}

pub open spec fn start_updates(ts: Seq<char>) -> Seq<(Seq<char>, BoxValueView)> {
    seq![("status"@, BoxValueView::Text("running"@)), ("started_at"@, BoxValueView::Text(ts)), ("stopped_at"@, BoxValueView::Null)]
}

pub open spec fn launch_updates(id: Seq<char>, ts: Seq<char>) -> Seq<(Seq<char>, BoxValueView)> {
    seq![("status"@, BoxValueView::Text("running"@)), ("boxlite_id"@, BoxValueView::Text("bl_"@ + id)), ("started_at"@, BoxValueView::Text(ts))]
}

/// The store after a box's columns are set.
pub open spec fn store_updated(s: StoreView, id: Seq<char>, ups: Seq<(Seq<char>, BoxValueView)>) -> StoreView {
    s.with_boxes(updated_boxes(s.boxes, id, ups))
}

/// Stopping a box: the manager after it.
pub open spec fn stop_box_next(m: ManagerView, key: Seq<char>, ts: Seq<char>) -> ManagerView {
    match lookup_box(m.store.boxes, key) {
        Some(b) => if b.status == running() {
            let m1 = released(m, b);
            with_store(m1, store_updated(m1.store, b.id, stop_updates(ts)))
        } else {
            m
        },
        None => m,
    }
}

/// Stopping a box: what it answers.
pub open spec fn stop_box_answer(m: ManagerView, key: Seq<char>, ts: Seq<char>) -> Result<BoxRowView, (ErrorCode, Seq<char>)> {
    match lookup_box(m.store.boxes, key) {
        Some(b) => if b.status == running() {
            updated_result(stop_box_next(m, key, ts).store, b.id)
        } else {
            Err((ErrorCode::BoxNotRunning, "Box '"@ + key + "' is not running (status: "@ + b.status + ")"@))
        },
        None => Err(not_found(key)),
    }
}

/// Whether stopping a box keeps the totals within `i64`.
pub open spec fn stop_box_fits(m: ManagerView, key: Seq<char>) -> bool {
    match lookup_box(m.store.boxes, key) {
        Some(b) => b.status == running() ==> can_release(m, b),
        None => true,
    }
}

/// Starting a stopped box: the manager after it.
pub open spec fn start_box_next(m: ManagerView, key: Seq<char>, ts: Seq<char>) -> ManagerView {
    match lookup_box(m.store.boxes, key) {
        Some(b) => if b.status != running() && b.status == "stopped"@
            && m.total_cpu + b.cpu <= m.max_cpu && m.total_memory_mb + b.memory_mb <= m.max_memory_mb {
            let m1 = claimed(m, b.id, b.cpu, b.memory_mb);
            with_store(m1, store_updated(m1.store, b.id, start_updates(ts)))
        } else {
            m
        },
        None => m,
    }
}

/// Starting a stopped box: what it answers.
pub open spec fn start_box_answer(m: ManagerView, key: Seq<char>, ts: Seq<char>) -> Result<BoxRowView, (ErrorCode, Seq<char>)> {
    match lookup_box(m.store.boxes, key) {
        Some(b) => if b.status == running() {
            Err((ErrorCode::BoxAlreadyRunning, "Box '"@ + key + "' is already running"@))
        } else if b.status != "stopped"@ {
            Err((ErrorCode::RuntimeError, "Box '"@ + key + "' cannot be started (status: "@ + b.status + ")"@))
        } else if m.total_cpu + b.cpu > m.max_cpu {
            Err((ErrorCode::ResourceExceeded, "Total CPU limit would be exceeded"@))
        } else if m.total_memory_mb + b.memory_mb > m.max_memory_mb {
            Err((ErrorCode::ResourceExceeded, "Total memory limit would be exceeded"@))
        } else {
            updated_result(start_box_next(m, key, ts).store, b.id)
        },
        None => Err(not_found(key)),
    }
}

/// Whether starting a box keeps the totals within `i64`.
pub open spec fn start_box_fits(m: ManagerView, key: Seq<char>) -> bool {
    match lookup_box(m.store.boxes, key) {
        Some(b) => b.status == "stopped"@ ==> can_claim(m, b.cpu, b.memory_mb),
        None => true,
    }
}

/// Removing a box: the manager after it. A running box is removed only
/// when forced, and then gives its resources back first.
pub open spec fn remove_box_next(m: ManagerView, key: Seq<char>, force: bool) -> ManagerView {
    match lookup_box(m.store.boxes, key) {
        Some(b) => if b.status == running() && !force {
            m
        } else {
            let m1 = if b.status == running() { released(m, b) } else { m };
            ManagerView { handles: without_id(m1.handles, b.id), store: after_delete_box(m1.store, b.id), ..m1 }
        },
        None => m,
    }
}

/// Removing a box: what it answers.
pub open spec fn remove_box_answer(m: ManagerView, key: Seq<char>, force: bool) -> Result<(), (ErrorCode, Seq<char>)> {
    match lookup_box(m.store.boxes, key) {
        Some(b) => if b.status == running() && !force {
            Err((ErrorCode::BoxAlreadyRunning, "Box is running. Use force=true to remove."@))
        } else {
            Ok(())
        },
        None => Err(not_found(key)),
    }
}

/// Whether removing a box keeps the totals within `i64`.
pub open spec fn remove_box_fits(m: ManagerView, key: Seq<char>, force: bool) -> bool {
    match lookup_box(m.store.boxes, key) {
        Some(b) => (b.status == running() && force) ==> can_release(m, b),
        None => true,
    }
}

/// Whether a box can take files or commands: running, with its machine held.
pub open spec fn box_usable(m: ManagerView, key: Seq<char>, not_running: Seq<char>) -> Result<BoxRowView, (ErrorCode, Seq<char>)> {
    match lookup_box(m.store.boxes, key) {
        Some(b) => if b.status != running() {
            Err((ErrorCode::BoxNotRunning, not_running))
        } else if !m.handles.contains(b.id) {
            Err((ErrorCode::RuntimeError, "BoxLite handle not found"@))
        } else {
            Ok(b)
        },
        None => Err(not_found(key)),
    }
}

/// Starting a command in a box: the manager after it.
pub open spec fn exec_in_box_next(
    m: ManagerView,
    key: Seq<char>,
    cmd: Seq<String>,
    env: Option<Map<String, String>>,
    workdir: Option<Seq<char>>,
    timeout_ms: Option<i64>,
    exec_id: Seq<char>,
    ts: Seq<char>,
) -> ManagerView {
    match box_usable(m, key, "Box '"@ + key + "' is not running"@) {
        Ok(b) => if create_exec_conflict(m.store, exec_id, b.id) is None {
            ManagerView {
                store: m.store.with_execs(m.store.execs.push(new_exec_row(exec_id, b.id, cmd, env, workdir, timeout_ms, ts))),
                tasks: with_id(m.tasks, exec_id),
                ..m
            }
        } else {
            m
        },
        Err(_) => m,
    }
}

/// Starting a command in a box: what it answers.
pub open spec fn exec_in_box_answer(
    m: ManagerView,
    key: Seq<char>,
    cmd: Seq<String>,
    env: Option<Map<String, String>>,
    workdir: Option<Seq<char>>,
    timeout_ms: Option<i64>,
    exec_id: Seq<char>,
    ts: Seq<char>,
) -> Result<ExecRowView, (ErrorCode, Seq<char>)> {
    match box_usable(m, key, "Box '"@ + key + "' is not running"@) {
        Ok(b) => match create_exec_conflict(m.store, exec_id, b.id) {
            Some(e) => Err((ErrorCode::RuntimeError, e)),
            None => Ok(new_exec_row(exec_id, b.id, cmd, env, workdir, timeout_ms, ts)),
        },
        Err(e) => Err(e),
    }
}

/// The data of the exit event of a completed command.
pub open spec fn exit_data() -> Seq<char> {
    "{\"exit_code\":0}"@
}

/// The exit event of a completed command.
pub open spec fn exit_event() -> EventView {
    EventView { seq: 0, event_type: "exit"@, data: exit_data(), stream: None }
}

/// The completion of a command: its exit event is recorded and
/// published, it is marked finished with exit code 0, and its stream
/// ends. A completion that was canceled does nothing.
pub open spec fn complete_exec_next(m: ManagerView, exec_id: Seq<char>, t_event: Seq<char>, t_finish: Seq<char>) -> ManagerView {
    if !m.tasks.contains(exec_id) {
        m
    } else {
        let s1 = if m.store.last_event_id == i64::MAX {
            m.store
        } else {
            with_event(m.store, exec_id, 0, "exit"@, exit_data(), None, t_event)
        };
        let s2 = s1.with_execs(finish_execs(s1.execs, exec_id, 0, None, t_finish));
        ManagerView {
            store: s2,
            bus: finished(published(m.bus, exec_id, exit_event()), exec_id),
            tasks: without_id(m.tasks, exec_id),
            ..m
        }
    }
}

/// Looking up an execution.
pub open spec fn get_exec_result(m: ManagerView, exec_id: Seq<char>) -> Result<ExecRowView, (ErrorCode, Seq<char>)> {
    match exec_by_id(m.store.execs, exec_id) {
        Some(e) => Ok(e),
        None => Err((ErrorCode::ExecNotFound, "Exec '"@ + exec_id + "' not found"@)),
    }
}

/// Canceling a running execution: the manager after it.
pub open spec fn cancel_exec_next(m: ManagerView, exec_id: Seq<char>, ts: Seq<char>) -> ManagerView {
    match exec_by_id(m.store.execs, exec_id) {
        Some(e) => if e.status == running() {
            ManagerView {
                tasks: without_id(m.tasks, exec_id),
                store: m.store.with_execs(cancel_execs(m.store.execs, exec_id, ts)),
                ..m
            }
        } else {
            m
        },
        None => m,
    }
}

/// Canceling a running execution: what it answers.
pub open spec fn cancel_exec_answer(m: ManagerView, exec_id: Seq<char>, ts: Seq<char>) -> Result<ExecRowView, (ErrorCode, Seq<char>)> {
    match exec_by_id(m.store.execs, exec_id) {
        Some(e) => if e.status != running() {
            Err((ErrorCode::ExecAlreadyFinished, "Exec already finished"@))
        } else {
            match exec_by_id(cancel_exec_next(m, exec_id, ts).store.execs, exec_id) {
                Some(r) => Ok(r),
                None => Err((ErrorCode::RuntimeError, "Exec '"@ + exec_id + "' not found"@)),
            }
        },
        None => Err((ErrorCode::ExecNotFound, "Exec '"@ + exec_id + "' not found"@)),
    }
}

/// The store after each box of a list of ids is removed in turn.
pub open spec fn delete_all(s: StoreView, ids: Seq<Seq<char>>) -> StoreView
    decreases ids.len(),
{
    if ids.len() == 0 {
        s
    } else {
        delete_all(after_delete_box(s, ids[0]), ids.drop_first())
    }
}

/// The ids of the boxes that a collection with a cutoff removes.
pub open spec fn gc_ids(s: StoreView, cutoff: Seq<char>) -> Seq<Seq<char>> {
    keep(s.boxes, collectable(cutoff)).map_values(|b: BoxRowView| b.id)
}

/// The arguments of a box creation, as content.
pub struct CreateArgs {
    pub image: Seq<char>,
    pub name: Option<Seq<char>>,
    pub cpu: i64,
    pub memory_mb: i64,
    pub disk_size_gb: i64,
    pub network: bool,
    pub workdir: Seq<char>,
    pub env: Option<Map<String, String>>,
    pub volumes: Option<Seq<Volume>>,
}

/// Why a box creation is refused before its record is written, if it is:
/// the host's CPU limit, then its memory limit, then a taken name, then a
/// volume whose host path is missing.
pub open spec fn create_refusal(m: ManagerView, a: CreateArgs, missing: Option<Seq<char>>) -> Option<(ErrorCode, Seq<char>)> {
    if m.total_cpu + a.cpu > m.max_cpu {
        Some((ErrorCode::ResourceExceeded, "Total CPU limit ("@ + int_text(m.max_cpu as int) + ") would be exceeded"@))
    } else if m.total_memory_mb + a.memory_mb > m.max_memory_mb {
        Some((ErrorCode::ResourceExceeded, "Total memory limit ("@ + int_text(m.max_memory_mb as int) + "MB) would be exceeded"@))
    } else if a.name is Some && lookup_box(m.store.boxes, a.name->0) is Some {
        Some((ErrorCode::NameAlreadyExists, "A box with name '"@ + a.name->0 + "' already exists"@))
    } else if missing is Some {
        Some((ErrorCode::RuntimeError, "Volume host path does not exist: "@ + missing->0))
    } else {
        None
    }
}

/// Creating a box with the id `id`, recorded at `t_created` and started at
/// `t_started`: the manager after it.
pub open spec fn create_box_next(m: ManagerView, a: CreateArgs, missing: Option<Seq<char>>, id: Seq<char>, t_created: Seq<char>, t_started: Seq<char>) -> ManagerView {
    if create_refusal(m, a, missing) is Some || create_box_conflict(m.store.boxes, id, a.name) is Some {
        m
    } else {
        let s1 = m.store.with_boxes(m.store.boxes.push(new_box_row(id, a.name, a.image, a.cpu, a.memory_mb,
            a.disk_size_gb, a.network, a.workdir, a.env, a.volumes, t_created)));
        let m1 = claimed(with_store(m, s1), id, a.cpu, a.memory_mb);
        with_store(m1, store_updated(s1, id, launch_updates(id, t_started)))
    }
}

/// Creating a box: what it answers.
pub open spec fn create_box_answer(m: ManagerView, a: CreateArgs, missing: Option<Seq<char>>, id: Seq<char>, t_created: Seq<char>, t_started: Seq<char>) -> Result<BoxRowView, (ErrorCode, Seq<char>)> {
    match create_refusal(m, a, missing) {
        Some(e) => Err(e),
        None => match create_box_conflict(m.store.boxes, id, a.name) {
            Some(msg) => Err((if a.name is Some { ErrorCode::NameAlreadyExists } else { ErrorCode::RuntimeError }, msg)),
            None => updated_result(create_box_next(m, a, missing, id, t_created, t_started).store, id),
        },
    }
}

/// Whether creating a box keeps the totals within `i64`.
pub open spec fn create_box_fits(m: ManagerView, a: CreateArgs) -> bool {
    can_claim(m, a.cpu, a.memory_mb)
}

pub open spec fn create_args(
    image: &str,
    name: Option<&str>,
    cpu: i64,
    memory_mb: i64,
    disk_size_gb: i64,
    network: bool,
    workdir: &str,
    env: Option<HashMap<String, String>>,
    volumes: Option<Vec<Volume>>,
) -> CreateArgs {
    CreateArgs {
        image: image@,
        name: opt_str_view(name),
        cpu,
        memory_mb,
        disk_size_gb,
        network,
        workdir: workdir@,
        env: env_view(env),
        volumes: volumes_view(volumes),
    }
}

/// Whether a path is the host path of one of the volumes.
pub open spec fn is_volume_host_path(volumes: Option<Seq<Volume>>, p: Seq<char>) -> bool {
    volumes is Some && exists|i: int| 0 <= i < volumes->0.len() && (#[trigger] volumes->0[i]).host_path@ == p
}

/// The boxes that the manager holds at start-up: those running or being
/// created that have a virtual machine id, in listing order; each is
/// counted when it is met.
pub open spec fn init_fold(m: ManagerView, rows: Seq<BoxRowView>) -> ManagerView
    decreases rows.len(),
{
    if rows.len() == 0 {
        m
    } else {
        let r = rows[0];
        let m1 = if (r.status == running() || r.status == "creating"@) && r.boxlite_id is Some {
            claimed(m, r.id, r.cpu, r.memory_mb)
        } else {
            m
        };
        init_fold(m1, rows.drop_first())
    }
}

/// Whether counting the held boxes at start-up keeps the totals within `i64`.
pub open spec fn init_fits(m: ManagerView, rows: Seq<BoxRowView>) -> bool
    decreases rows.len(),
{
    if rows.len() == 0 {
        true
    } else {
        let r = rows[0];
        if (r.status == running() || r.status == "creating"@) && r.boxlite_id is Some {
            &&& i64::MIN <= m.total_cpu + r.cpu <= i64::MAX
            &&& i64::MIN <= m.total_memory_mb + r.memory_mb <= i64::MAX
            &&& m.box_count < i64::MAX
            &&& init_fits(claimed(m, r.id, r.cpu, r.memory_mb), rows.drop_first())
        } else {
            init_fits(m, rows.drop_first())
        }
    }
}

/// The boxes in listing order: all of them, newest first.
pub open spec fn listing(s: StoreView) -> Seq<BoxRowView> {
    order_by(keep(s.boxes, status_filter(None)), box_newer_first())
}

/// The manager of boxes and executions.
pub struct BoxManager {
    store: Store,
    event_bus: EventBus,
    resources: ResourceUsage,
    exec_tasks: Vec<String>,
    box_handles: Vec<String>,
    max_cpu: i64,
    max_memory_mb: i64,
}

pub open spec fn string_views(v: Seq<String>) -> Seq<Seq<char>> {
    v.map_values(|s: String| s@)
}

impl View for BoxManager {
    type V = ManagerView;

    closed spec fn view(&self) -> ManagerView {
        ManagerView {
            store: self.store@,
            bus: self.event_bus@,
            total_cpu: self.resources.total_cpu,
            total_memory_mb: self.resources.total_memory_mb,
            box_count: self.resources.box_count,
            tasks: string_views(self.exec_tasks@),
            handles: string_views(self.box_handles@),
            max_cpu: self.max_cpu,
            max_memory_mb: self.max_memory_mb,
        }
    }
}

fn contains_id(ids: &Vec<String>, id: &str) -> (r: bool)
    ensures
        r == string_views(ids@).contains(id@),
{
    let mut i: usize = 0;
    while i < ids.len()
        invariant
            i <= ids@.len(),
            forall|j: int| 0 <= j < i ==> string_views(ids@)[j] != id@,
        decreases ids@.len() - i,
    {
        if str_eq(ids[i].as_str(), id) {
            proof {
                assert(string_views(ids@)[i as int] == id@);
            }
            return true;
        }
        i = i + 1;
    }
    proof {
        if string_views(ids@).contains(id@) {
            let j = choose|j: int| 0 <= j < string_views(ids@).len() && string_views(ids@)[j] == id@;
            assert(string_views(ids@)[j] != id@);
        }
    }
    false
}

fn add_id(ids: &mut Vec<String>, id: &str)
    ensures
        string_views(final(ids)@) == with_id(string_views(old(ids)@), id@),
{
    if !contains_id(ids, id) {
        let ghost before = ids@;
        ids.push(id.to_owned());
        proof {
            assert(string_views(ids@) =~= string_views(before).push(id@));
        }
    }
}

fn remove_id(ids: &mut Vec<String>, id: &str)
    ensures
        string_views(final(ids)@) == without_id(string_views(old(ids)@), id@),
{
    let ghost old_ids = string_views(ids@);
    let ghost p = id_other_than(id@);
    let mut out: Vec<String> = Vec::new();
    let mut i: usize = 0;
    proof {
        assert(keep(old_ids.take(0), p) =~= Seq::empty());
        assert(string_views(out@) =~= Seq::empty());
    }
    while i < ids.len()
        invariant
            i <= ids@.len(),
            old_ids == string_views(ids@),
            p == id_other_than(id@),
            string_views(out@) == keep(old_ids.take(i as int), p),
        decreases ids@.len() - i,
    {
        proof {
            crate::seqs::lemma_keep_take_succ(old_ids, p, i as int);
        }
        if !str_eq(ids[i].as_str(), id) {
            let ghost before = out@;
            out.push(ids[i].clone());
            proof {
                assert(string_views(out@) =~= string_views(before).push(old_ids[i as int]));
            }
        }
        i = i + 1;
    }
    proof {
        assert(old_ids.take(ids@.len() as int) =~= old_ids);
    }
    *ids = out;
}

/// Builds an error from a code and an owned message.
fn fail(code: ErrorCode, message: String) -> (e: BoxRunError)
    ensures
        e.code == code,
        e.message@ == message@,
{
    BoxRunError { code, message }
}

/// How the columns that the manager sets are classified.
proof fn lemma_column_kinds()
    ensures
        is_box_column("status"@) && is_box_column("stopped_at"@) && is_box_column("started_at"@)
            && is_box_column("boxlite_id"@),
        is_required_text_column("status"@) && !is_int_column("status"@) && "status"@ != "network"@
            && "status"@ != "env"@ && "status"@ != "volumes"@,
        is_not_null_column("status"@) && !is_not_null_column("stopped_at"@) && !is_not_null_column("started_at"@)
            && !is_not_null_column("boxlite_id"@),
        !is_required_text_column("stopped_at"@) && !is_int_column("stopped_at"@) && "stopped_at"@ != "network"@
            && "stopped_at"@ != "env"@ && "stopped_at"@ != "volumes"@,
        !is_required_text_column("started_at"@) && !is_int_column("started_at"@) && "started_at"@ != "network"@
            && "started_at"@ != "env"@ && "started_at"@ != "volumes"@,
        !is_required_text_column("boxlite_id"@) && !is_int_column("boxlite_id"@) && "boxlite_id"@ != "network"@
            && "boxlite_id"@ != "env"@ && "boxlite_id"@ != "volumes"@,
{
    reveal_strlit("status");
    reveal_strlit("stopped_at");
    reveal_strlit("started_at");
    reveal_strlit("boxlite_id");
    reveal_strlit("image");
    reveal_strlit("workdir");
    reveal_strlit("env");
    reveal_strlit("volumes");
    reveal_strlit("network");
    reveal_strlit("cpu");
    reveal_strlit("memory_mb");
    reveal_strlit("disk_size_gb");
    assert("stopped_at"@.len() == 10 && "started_at"@.len() == 10 && "boxlite_id"@.len() == 10);
    assert("status"@.len() == 6 && "image"@.len() == 5 && "workdir"@.len() == 7 && "cpu"@.len() == 3);
    assert("memory_mb"@.len() == 9 && "disk_size_gb"@.len() == 12 && "network"@.len() == 7);
    assert("env"@.len() == 3 && "volumes"@.len() == 7);
}

/// An update of the kind the manager makes: a text for the status, or a
/// text or `NULL` for one of its time and machine-id columns.
spec fn manager_update(p: (Seq<char>, BoxValueView)) -> bool {
    ||| p.0 == "status"@ && p.1 is Text
    ||| (p.0 == "stopped_at"@ || p.0 == "started_at"@ || p.0 == "boxlite_id"@) && (p.1 is Text || p.1 is Null)
}

proof fn lemma_manager_updates_known(u: Seq<(Seq<char>, BoxValueView)>)
    requires
        forall|k: int| 0 <= k < u.len() ==> manager_update(#[trigger] u[k]),
    ensures
        first_bad_column(u) is None,
        first_value_problem(u) is None,
    decreases u.len(),
{
    if u.len() > 0 {
        lemma_column_kinds();
        assert(manager_update(u[0]));
        assert(value_problem(u[0].0, u[0].1) is None);
        let d = u.drop_first();
        assert forall|k: int| 0 <= k < d.len() implies manager_update(#[trigger] d[k]) by {
            assert(d[k] == u[k + 1]);
        }
        lemma_manager_updates_known(d);
    }
}

/// The manager's own updates are never refused.
proof fn lemma_manager_updates_ok(u: Seq<(Seq<char>, BoxValueView)>)
    requires
        forall|k: int| 0 <= k < u.len() ==> manager_update(#[trigger] u[k]),
    ensures
        update_problem(u) is None,
        not_null_problem(u) is None,
{
    lemma_column_kinds();
    lemma_manager_updates_known(u);
    assert forall|k: int| 0 <= k < u.len() && is_not_null_column((#[trigger] u[k]).0) implies !is_null_value(u[k].1) by {
        assert(manager_update(u[k]));
    }
    lemma_no_null_left(u);
}

proof fn lemma_stop_updates_ok(ts: Seq<char>)
    ensures
        update_problem(stop_updates(ts)) is None,
        not_null_problem(stop_updates(ts)) is None,
{
    let u = stop_updates(ts);
    assert forall|k: int| 0 <= k < u.len() implies manager_update(#[trigger] u[k]) by {}
    lemma_manager_updates_ok(u);
}

proof fn lemma_start_updates_ok(ts: Seq<char>)
    ensures
        update_problem(start_updates(ts)) is None,
        not_null_problem(start_updates(ts)) is None,
{
    let u = start_updates(ts);
    assert forall|k: int| 0 <= k < u.len() implies manager_update(#[trigger] u[k]) by {}
    lemma_manager_updates_ok(u);
}

proof fn lemma_launch_updates_ok(id: Seq<char>, ts: Seq<char>)
    ensures
        update_problem(launch_updates(id, ts)) is None,
        not_null_problem(launch_updates(id, ts)) is None,
{
    let u = launch_updates(id, ts);
    assert forall|k: int| 0 <= k < u.len() implies manager_update(#[trigger] u[k]) by {}
    lemma_manager_updates_ok(u);
}

/// The box that a run asks for: its image, CPU, memory, disk, network,
/// environment and volumes, no name, and `/root` to work in.
pub open spec fn run_args(req: RunRequest) -> CreateArgs {
    CreateArgs {
        image: req.image@,
        name: None,
        cpu: req.cpu,
        memory_mb: req.memory_mb,
        disk_size_gb: req.disk_size_gb,
        network: req.network,
        workdir: "/root"@,
        env: env_view(req.env),
        volumes: volumes_view(req.volumes),
    }
}

/// Starting a run: the manager after it. The box is created; when that
/// succeeds the command is started in it, and when the command cannot be
/// started the box is removed again by force.
pub open spec fn run_start_next(
    m: ManagerView,
    req: RunRequest,
    missing: Option<Seq<char>>,
    box_id: Seq<char>,
    t_created: Seq<char>,
    t_started: Seq<char>,
    exec_id: Seq<char>,
    ts: Seq<char>,
) -> ManagerView {
    let m1 = create_box_next(m, run_args(req), missing, box_id, t_created, t_started);
    match create_box_answer(m, run_args(req), missing, box_id, t_created, t_started) {
        Err(_) => m1,
        Ok(_) => match exec_in_box_answer(m1, box_id, req.cmd@, env_view(req.env), None, req.timeout_ms, exec_id, ts) {
            Ok(_) => exec_in_box_next(m1, box_id, req.cmd@, env_view(req.env), None, req.timeout_ms, exec_id, ts),
            Err(_) => remove_box_next(m1, box_id, true),
        },
    }
}

/// Starting a run: what it answers, the box and the execution, or the
/// error of the creation or of the start of the command.
pub open spec fn run_start_answer(
    m: ManagerView,
    req: RunRequest,
    missing: Option<Seq<char>>,
    box_id: Seq<char>,
    t_created: Seq<char>,
    t_started: Seq<char>,
    exec_id: Seq<char>,
    ts: Seq<char>,
) -> Result<(Seq<char>, Seq<char>), (ErrorCode, Seq<char>)> {
    let m1 = create_box_next(m, run_args(req), missing, box_id, t_created, t_started);
    match create_box_answer(m, run_args(req), missing, box_id, t_created, t_started) {
        Err(e) => Err(e),
        Ok(_) => match exec_in_box_answer(m1, box_id, req.cmd@, env_view(req.env), None, req.timeout_ms, exec_id, ts) {
            Ok(_) => Ok((box_id, exec_id)),
            Err(e) => Err(e),
        },
    }
}

/// The stored events of an execution, in sequence order.
pub open spec fn exec_events(s: StoreView, exec_id: Seq<char>) -> Seq<EventRowView> {
    order_by(keep(s.events, event_wanted(exec_id, 0)), event_seq_first())
}

/// Whether a host path exists, from `std::path::Path::exists`. The answer
/// depends on the file system, so nothing is claimed of it.
#[verifier::external_body]
fn host_path_exists(path: &str) -> (r: bool) {
    std::path::Path::new(path).exists()
}

/// The host path of the first volume whose host path does not exist; with
/// no volumes there is nothing to look up and the result is `None`. Which
/// paths exist is for the file system to say, so `None` is not otherwise
/// tied to the paths.
fn first_missing_host_path(volumes: &Option<Vec<Volume>>) -> (r: Option<String>)
    ensures
        r is Some ==> volumes is Some && exists|i: int| 0 <= i < volumes->0@.len() && (#[trigger] volumes->0@[i]).host_path@ == r->0@,
        volumes is None || volumes->0@.len() == 0 ==> r is None,
{
    match volumes {
        None => None,
        Some(v) => {
            let mut i: usize = 0;
            while i < v.len()
                invariant
                    i <= v@.len(),
                    volumes is Some && volumes->0@ == v@,
                decreases v@.len() - i,
            {
                if !host_path_exists(v[i].host_path.as_str()) {
                    let p = v[i].host_path.clone();
                    proof {
                        assert(volumes->0@[i as int].host_path@ == p@);
                    }
                    return Some(p);
                }
                i = i + 1;
            }
            None
        },
    }
}

impl BoxManager {
    /// A manager over a store and an event bus, with the host's CPU and
    /// memory limits. It holds no boxes and no resources yet.
    pub fn new(store: Store, event_bus: EventBus, max_cpu: i64, max_memory_mb: i64) -> (m: BoxManager)
        ensures
            m@.store == store@,
            m@.bus == event_bus@,
            m@.total_cpu == 0,
            m@.total_memory_mb == 0,
            m@.box_count == 0,
            m@.tasks.len() == 0,
            m@.handles.len() == 0,
            m@.max_cpu == max_cpu,
            m@.max_memory_mb == max_memory_mb,
            ids_unique(m@.store.boxes),
    {
        proof {
            use_type_invariant(&store);
            lemma_store_ids_unique(store);
        }
        let m = BoxManager {
            store,
            event_bus,
            resources: ResourceUsage { total_cpu: 0, total_memory_mb: 0, box_count: 0 },
            exec_tasks: Vec::new(),
            box_handles: Vec::new(),
            max_cpu,
            max_memory_mb,
        };
        proof {
            assert(string_views(m.exec_tasks@) =~= Seq::empty());
            assert(string_views(m.box_handles@) =~= Seq::empty());
        }
        m
    }

    /// The store.
    pub fn store(&self) -> (s: &Store)
        ensures
            s@ == self@.store,
    {
        &self.store
    }

    /// The event bus.
    pub fn event_bus(&self) -> (b: &EventBus)
        ensures
            b@ == self@.bus,
    {
        &self.event_bus
    }

    /// A snapshot of the resources held by running boxes.
    pub fn resource_usage(&self) -> (u: ResourceUsage)
        ensures
            u.total_cpu == self@.total_cpu,
            u.total_memory_mb == self@.total_memory_mb,
            u.box_count == self@.box_count,
    {
        ResourceUsage {
            total_cpu: self.resources.total_cpu,
            total_memory_mb: self.resources.total_memory_mb,
            box_count: self.resources.box_count,
        }
    }

    /// Whether the completion of an execution is still to come.
    pub fn get_exec_task(&self, exec_id: &str) -> (r: bool)
        ensures
            r == self@.tasks.contains(exec_id@),
    {
        contains_id(&self.exec_tasks, exec_id)
    }

    /// The box that a key names, by id or by name.
    pub fn get_box(&self, id_or_name: &str) -> (r: Result<BoxRow, BoxRunError>)
        ensures
            box_result(r) == get_box_result(self@, id_or_name@),
    {
        match self.store.get_box(id_or_name) {
            Ok(Some(row)) => Ok(row),
            _ => Err(fail(ErrorCode::BoxNotFound, join3("Box '", id_or_name, "' not found"))),
        }
    }

    /// The boxes that pass a status filter, newest first.
    pub fn list_boxes(&self, status: Option<&str>) -> (r: Result<Vec<BoxRow>, BoxRunError>)
        ensures
            r matches Ok(v) && box_views(v@) == order_by(keep(self@.store.boxes, status_filter(opt_str_view(status))), box_newer_first()),
    {
        match self.store.list_boxes(status) {
            Ok(v) => Ok(v),
            Err(e) => Err(fail(ErrorCode::RuntimeError, e)),
        }
    }

    /// Stops a running box at time `ts`: its resources are given back and
    /// it is marked stopped.
    pub fn stop_box_at(&mut self, id_or_name: &str, ts: &str) -> (r: Result<BoxRow, BoxRunError>)
        requires
            stop_box_fits(old(self)@, id_or_name@),
        ensures
            final(self)@ == stop_box_next(old(self)@, id_or_name@, ts@),
            box_result(r) == stop_box_answer(old(self)@, id_or_name@, ts@),
    {
        let box_data = match self.get_box(id_or_name) {
            Ok(b) => b,
            Err(e) => return Err(e),
        };
        if !str_eq(box_data.status.as_str(), "running") {
            let mut msg = join3("Box '", id_or_name, "' is not running (status: ");
            msg.append(box_data.status.as_str());
            msg.append(")");
            return Err(fail(ErrorCode::BoxNotRunning, msg));
        }
        remove_id(&mut self.box_handles, box_data.id.as_str());
        self.resources.total_cpu = self.resources.total_cpu - box_data.cpu;
        self.resources.total_memory_mb = self.resources.total_memory_mb - box_data.memory_mb;
        self.resources.box_count = self.resources.box_count - 1;
        let mut ups: Vec<(&str, BoxValue)> = Vec::new();
        ups.push(("status", BoxValue::Text("stopped".to_owned())));
        ups.push(("stopped_at", BoxValue::Text(ts.to_owned())));
        proof {
            assert(updates_view(ups@) =~= stop_updates(ts@));
            lemma_stop_updates_ok(ts@);
        }
        match self.store.update_box(box_data.id.as_str(), ups.as_slice()) {
            Ok(row) => Ok(row),
            Err(e) => Err(fail(ErrorCode::RuntimeError, e)),
        }
    }

    /// Stops a running box now.
    pub fn stop_box(&mut self, id_or_name: &str) -> (r: Result<BoxRow, BoxRunError>)
        requires
            stop_box_fits(old(self)@, id_or_name@),
        ensures
            exists|ts: Seq<char>| #![trigger stop_box_next(old(self)@, id_or_name@, ts)]
                final(self)@ == stop_box_next(old(self)@, id_or_name@, ts)
                && box_result(r) == stop_box_answer(old(self)@, id_or_name@, ts),
    {
        let ts = crate::clock::now_rfc3339();
        self.stop_box_at(id_or_name, ts.as_str())
    }

    /// Starts a stopped box at time `ts`, if the host's limits leave room
    /// for its CPU and memory.
    pub fn start_box_at(&mut self, id_or_name: &str, ts: &str) -> (r: Result<BoxRow, BoxRunError>)
        requires
            start_box_fits(old(self)@, id_or_name@),
        ensures
            final(self)@ == start_box_next(old(self)@, id_or_name@, ts@),
            box_result(r) == start_box_answer(old(self)@, id_or_name@, ts@),
    {
        let box_data = match self.get_box(id_or_name) {
            Ok(b) => b,
            Err(e) => return Err(e),
        };
        if str_eq(box_data.status.as_str(), "running") {
            return Err(fail(ErrorCode::BoxAlreadyRunning, join3("Box '", id_or_name, "' is already running")));
        }
        if !str_eq(box_data.status.as_str(), "stopped") {
            let mut msg = join3("Box '", id_or_name, "' cannot be started (status: ");
            msg.append(box_data.status.as_str());
            msg.append(")");
            return Err(fail(ErrorCode::RuntimeError, msg));
        }
        if (self.resources.total_cpu as i128) + (box_data.cpu as i128) > (self.max_cpu as i128) {
            return Err(BoxRunError::new(ErrorCode::ResourceExceeded, "Total CPU limit would be exceeded"));
        }
        if (self.resources.total_memory_mb as i128) + (box_data.memory_mb as i128) > (self.max_memory_mb as i128) {
            return Err(BoxRunError::new(ErrorCode::ResourceExceeded, "Total memory limit would be exceeded"));
        }
        add_id(&mut self.box_handles, box_data.id.as_str());
        self.resources.total_cpu = self.resources.total_cpu + box_data.cpu;
        self.resources.total_memory_mb = self.resources.total_memory_mb + box_data.memory_mb;
        self.resources.box_count = self.resources.box_count + 1;
        let mut ups: Vec<(&str, BoxValue)> = Vec::new();
        ups.push(("status", BoxValue::Text("running".to_owned())));
        ups.push(("started_at", BoxValue::Text(ts.to_owned())));
        ups.push(("stopped_at", BoxValue::Null));
        proof {
            assert(updates_view(ups@) =~= start_updates(ts@));
            lemma_start_updates_ok(ts@);
        }
        match self.store.update_box(box_data.id.as_str(), ups.as_slice()) {
            Ok(row) => Ok(row),
            Err(e) => Err(fail(ErrorCode::RuntimeError, e)),
        }
    }

    /// Starts a stopped box now.
    pub fn start_box(&mut self, id_or_name: &str) -> (r: Result<BoxRow, BoxRunError>)
        requires
            start_box_fits(old(self)@, id_or_name@),
        ensures
            exists|ts: Seq<char>| #![trigger start_box_next(old(self)@, id_or_name@, ts)]
                final(self)@ == start_box_next(old(self)@, id_or_name@, ts)
                && box_result(r) == start_box_answer(old(self)@, id_or_name@, ts),
    {
        let ts = crate::clock::now_rfc3339();
        self.start_box_at(id_or_name, ts.as_str())
    }

    /// Removes a box with its executions and events. A running box is
    /// removed only when forced.
    pub fn remove_box(&mut self, id_or_name: &str, force: bool) -> (r: Result<(), BoxRunError>)
        requires
            remove_box_fits(old(self)@, id_or_name@, force),
        ensures
            final(self)@ == remove_box_next(old(self)@, id_or_name@, force),
            unit_result(r) == remove_box_answer(old(self)@, id_or_name@, force),
    {
        let box_data = match self.get_box(id_or_name) {
            Ok(b) => b,
            Err(e) => return Err(e),
        };
        if str_eq(box_data.status.as_str(), "running") {
            if !force {
                return Err(BoxRunError::new(ErrorCode::BoxAlreadyRunning, "Box is running. Use force=true to remove."));
            }
            remove_id(&mut self.box_handles, box_data.id.as_str());
            self.resources.total_cpu = self.resources.total_cpu - box_data.cpu;
            self.resources.total_memory_mb = self.resources.total_memory_mb - box_data.memory_mb;
            self.resources.box_count = self.resources.box_count - 1;
        }
        remove_id(&mut self.box_handles, box_data.id.as_str());
        match self.store.delete_box(box_data.id.as_str()) {
            Ok(()) => Ok(()),
            Err(e) => Err(fail(ErrorCode::RuntimeError, e)),
        }
    }

    fn usable_box(&self, id_or_name: &str, not_running: &str) -> (r: Result<BoxRow, BoxRunError>)
        ensures
            box_result(r) == box_usable(self@, id_or_name@, not_running@),
    {
        let box_data = match self.get_box(id_or_name) {
            Ok(b) => b,
            Err(e) => return Err(e),
        };
        if !str_eq(box_data.status.as_str(), "running") {
            return Err(BoxRunError::new(ErrorCode::BoxNotRunning, not_running));
        }
        if !contains_id(&self.box_handles, box_data.id.as_str()) {
            return Err(BoxRunError::new(ErrorCode::RuntimeError, "BoxLite handle not found"));
        }
        Ok(box_data)
    }

    /// Checks that a file can be copied into a box: it must be running
    /// with its machine held.
    pub fn upload_file(&self, id_or_name: &str, host_path: &str, dest_path: &str) -> (r: Result<(), BoxRunError>)
        ensures
            unit_result(r) == match box_usable(self@, id_or_name@, "Box is not running"@) {
                Ok(_) => Ok(()),
                Err(e) => Err(e),
            },
    {
        match self.usable_box(id_or_name, "Box is not running") {
            Ok(_) => Ok(()),
            Err(e) => Err(e),
        }
    }

    /// Checks that a file can be copied out of a box: it must be running
    /// with its machine held.
    pub fn download_file(&self, id_or_name: &str, src_path: &str, host_dest: &str) -> (r: Result<(), BoxRunError>)
        ensures
            unit_result(r) == match box_usable(self@, id_or_name@, "Box is not running"@) {
                Ok(_) => Ok(()),
                Err(e) => Err(e),
            },
    {
        match self.usable_box(id_or_name, "Box is not running") {
            Ok(_) => Ok(()),
            Err(e) => Err(e),
        }
    }

    /// Starts a command in a running box under the execution id `exec_id`
    /// at time `ts`; its completion is left to come.
    pub fn exec_in_box_with(
        &mut self,
        id_or_name: &str,
        cmd: &[String],
        env: &Option<HashMap<String, String>>,
        workdir: Option<&str>,
        timeout_ms: Option<i64>,
        exec_id: &str,
        ts: &str,
    ) -> (r: Result<ExecRow, BoxRunError>)
        ensures
            final(self)@ == exec_in_box_next(old(self)@, id_or_name@, cmd@, env_view(*env), opt_str_view(workdir), timeout_ms, exec_id@, ts@),
            exec_result(r) == exec_in_box_answer(old(self)@, id_or_name@, cmd@, env_view(*env), opt_str_view(workdir), timeout_ms, exec_id@, ts@),
    {
        let not_running = join3("Box '", id_or_name, "' is not running");
        let box_data = match self.usable_box(id_or_name, not_running.as_str()) {
            Ok(b) => b,
            Err(e) => return Err(e),
        };
        let exec_data = match self.store.create_exec_at(exec_id, box_data.id.as_str(), cmd, env, workdir, timeout_ms, ts) {
            Ok(x) => x,
            Err(e) => return Err(fail(ErrorCode::RuntimeError, e)),
        };
        add_id(&mut self.exec_tasks, exec_id);
        Ok(exec_data)
    }

    /// Starts a command in a running box under a fresh execution id.
    pub fn exec_in_box(
        &mut self,
        id_or_name: &str,
        cmd: &[String],
        env: &Option<HashMap<String, String>>,
        workdir: Option<&str>,
        timeout_ms: Option<i64>,
    ) -> (r: Result<ExecRow, BoxRunError>)
        ensures
            exists|exec_id: Seq<char>, ts: Seq<char>|
                #![trigger exec_in_box_next(old(self)@, id_or_name@, cmd@, env_view(*env), opt_str_view(workdir), timeout_ms, exec_id, ts)]
                exec_id.len() == 17 && exec_id.subrange(0, 5) == "exec_"@
                && final(self)@ == exec_in_box_next(old(self)@, id_or_name@, cmd@, env_view(*env), opt_str_view(workdir), timeout_ms, exec_id, ts)
                && exec_result(r) == exec_in_box_answer(old(self)@, id_or_name@, cmd@, env_view(*env), opt_str_view(workdir), timeout_ms, exec_id, ts),
    {
        let exec_id = crate::ids::gen_id("exec");
        let ts = crate::clock::now_rfc3339();
        proof {
            reveal_strlit("exec");
            reveal_strlit("_");
            reveal_strlit("exec_");
            assert("exec"@ + "_"@ =~= "exec_"@);
        }
        self.exec_in_box_with(id_or_name, cmd, env, workdir, timeout_ms, exec_id.as_str(), ts.as_str())
    }

    /// Completes a command started in a box, with its exit event recorded
    /// at `t_event` and its finish at `t_finish`: the exit event (exit code
    /// 0) is recorded and published, the execution is marked finished, and
    /// its stream ends. A completion that was canceled does nothing.
    pub fn complete_exec_at(&mut self, exec_id: &str, t_event: &str, t_finish: &str)
        ensures
            final(self)@ == complete_exec_next(old(self)@, exec_id@, t_event@, t_finish@),
    {
        if !contains_id(&self.exec_tasks, exec_id) {
            return;
        }
        let exit_data = "{\"exit_code\":0}";
        let _ = self.store.append_event_at(exec_id, 0, "exit", exit_data, None, t_event);
        let event = Event { seq: 0, event_type: "exit".to_owned(), data: exit_data.to_owned(), stream: None };
        self.event_bus.publish(exec_id, event);
        let _ = self.store.finish_exec_at(exec_id, 0, None, t_finish);
        self.event_bus.finish(exec_id);
        remove_id(&mut self.exec_tasks, exec_id);
    }

    /// Completes a command started in a box, now.
    pub fn complete_exec(&mut self, exec_id: &str)
        ensures
            exists|t1: Seq<char>, t2: Seq<char>| #![trigger complete_exec_next(old(self)@, exec_id@, t1, t2)]
                final(self)@ == complete_exec_next(old(self)@, exec_id@, t1, t2),
    {
        let t1 = crate::clock::now_rfc3339();
        let t2 = crate::clock::now_rfc3339();
        self.complete_exec_at(exec_id, t1.as_str(), t2.as_str())
    }

    /// The execution with an id.
    pub fn get_exec(&self, exec_id: &str) -> (r: Result<ExecRow, BoxRunError>)
        ensures
            exec_result(r) == get_exec_result(self@, exec_id@),
    {
        match self.store.get_exec(exec_id) {
            Ok(Some(x)) => Ok(x),
            _ => Err(fail(ErrorCode::ExecNotFound, join3("Exec '", exec_id, "' not found"))),
        }
    }

    /// Cancels a running execution at time `ts`: its completion is called
    /// off and it is marked canceled.
    pub fn cancel_exec_at(&mut self, exec_id: &str, ts: &str) -> (r: Result<ExecRow, BoxRunError>)
        ensures
            final(self)@ == cancel_exec_next(old(self)@, exec_id@, ts@),
            exec_result(r) == cancel_exec_answer(old(self)@, exec_id@, ts@),
    {
        let exec_data = match self.get_exec(exec_id) {
            Ok(x) => x,
            Err(e) => return Err(e),
        };
        if !str_eq(exec_data.status.as_str(), "running") {
            return Err(BoxRunError::new(ErrorCode::ExecAlreadyFinished, "Exec already finished"));
        }
        remove_id(&mut self.exec_tasks, exec_id);
        match self.store.cancel_exec_at(exec_id, ts) {
            Ok(x) => Ok(x),
            Err(e) => Err(fail(ErrorCode::RuntimeError, e)),
        }
    }

    /// Cancels a running execution now.
    pub fn cancel_exec(&mut self, exec_id: &str) -> (r: Result<ExecRow, BoxRunError>)
        ensures
            exists|ts: Seq<char>| #![trigger cancel_exec_next(old(self)@, exec_id@, ts)]
                final(self)@ == cancel_exec_next(old(self)@, exec_id@, ts)
                && exec_result(r) == cancel_exec_answer(old(self)@, exec_id@, ts),
    {
        let ts = crate::clock::now_rfc3339();
        self.cancel_exec_at(exec_id, ts.as_str())
    }

    /// Creates a box with the id `id`, recorded at `t_created` and
    /// started at `t_started`; `missing_host_path` is the first volume
    /// host path found missing, if any.
    pub fn create_box_with(
        &mut self,
        image: &str,
        name: Option<&str>,
        cpu: i64,
        memory_mb: i64,
        disk_size_gb: i64,
        network: bool,
        workdir: &str,
        env: &Option<HashMap<String, String>>,
        volumes: &Option<Vec<Volume>>,
        missing_host_path: Option<&str>,
        box_id: &str,
        t_created: &str,
        t_started: &str,
    ) -> (r: Result<BoxRow, BoxRunError>)
        requires
            create_box_fits(old(self)@, create_args(image, name, cpu, memory_mb, disk_size_gb, network, workdir, *env, *volumes)),
        ensures
            final(self)@ == create_box_next(old(self)@, create_args(image, name, cpu, memory_mb, disk_size_gb, network, workdir, *env, *volumes),
                opt_str_view(missing_host_path), box_id@, t_created@, t_started@),
            box_result(r) == create_box_answer(old(self)@, create_args(image, name, cpu, memory_mb, disk_size_gb, network, workdir, *env, *volumes),
                opt_str_view(missing_host_path), box_id@, t_created@, t_started@),
    {
        if (self.resources.total_cpu as i128) + (cpu as i128) > (self.max_cpu as i128) {
            let mut msg = join2("Total CPU limit (", i64_to_text(self.max_cpu).as_str());
            msg.append(") would be exceeded");
            return Err(fail(ErrorCode::ResourceExceeded, msg));
        }
        if (self.resources.total_memory_mb as i128) + (memory_mb as i128) > (self.max_memory_mb as i128) {
            let mut msg = join2("Total memory limit (", i64_to_text(self.max_memory_mb).as_str());
            msg.append("MB) would be exceeded");
            return Err(fail(ErrorCode::ResourceExceeded, msg));
        }
        if let Some(n) = name {
            if let Ok(Some(_)) = self.store.get_box(n) {
                return Err(fail(ErrorCode::NameAlreadyExists, join3("A box with name '", n, "' already exists")));
            }
        }
        if let Some(p) = missing_host_path {
            return Err(fail(ErrorCode::RuntimeError, join2("Volume host path does not exist: ", p)));
        }
        match self.store.create_box_at(box_id, name, image, cpu, memory_mb, disk_size_gb, network, workdir, env, volumes, t_created) {
            Ok(_) => {},
            Err(e) => {
                let code = if name.is_some() { ErrorCode::NameAlreadyExists } else { ErrorCode::RuntimeError };
                return Err(fail(code, e));
            },
        }
        add_id(&mut self.box_handles, box_id);
        self.resources.total_cpu = self.resources.total_cpu + cpu;
        self.resources.total_memory_mb = self.resources.total_memory_mb + memory_mb;
        self.resources.box_count = self.resources.box_count + 1;
        let boxlite_id = join2("bl_", box_id);
        let mut ups: Vec<(&str, BoxValue)> = Vec::new();
        ups.push(("status", BoxValue::Text("running".to_owned())));
        ups.push(("boxlite_id", BoxValue::Text(boxlite_id)));
        ups.push(("started_at", BoxValue::Text(t_started.to_owned())));
        proof {
            assert(updates_view(ups@) =~= launch_updates(box_id@, t_started@));
            lemma_launch_updates_ok(box_id@, t_started@);
        }
        match self.store.update_box(box_id, ups.as_slice()) {
            Ok(row) => Ok(row),
            Err(e) => Err(fail(ErrorCode::RuntimeError, e)),
        }
    }

    /// Creates a box under a fresh id and starts it, if the host's limits
    /// leave room for it, its name is free, and its volumes' host paths exist.
    pub fn create_box(
        &mut self,
        image: &str,
        name: Option<&str>,
        cpu: i64,
        memory_mb: i64,
        disk_size_gb: i64,
        network: bool,
        workdir: &str,
        env: &Option<HashMap<String, String>>,
        volumes: &Option<Vec<Volume>>,
    ) -> (r: Result<BoxRow, BoxRunError>)
        requires
            create_box_fits(old(self)@, create_args(image, name, cpu, memory_mb, disk_size_gb, network, workdir, *env, *volumes)),
        ensures
            exists|missing: Option<Seq<char>>, id: Seq<char>, t1: Seq<char>, t2: Seq<char>|
                #![trigger create_box_next(old(self)@, create_args(image, name, cpu, memory_mb, disk_size_gb, network, workdir, *env, *volumes), missing, id, t1, t2)]
                (missing is None || is_volume_host_path(volumes_view(*volumes), missing->0))
                && id.len() == 16 && id.subrange(0, 4) == "box_"@
                && final(self)@ == create_box_next(old(self)@, create_args(image, name, cpu, memory_mb, disk_size_gb, network, workdir, *env, *volumes), missing, id, t1, t2)
                && box_result(r) == create_box_answer(old(self)@, create_args(image, name, cpu, memory_mb, disk_size_gb, network, workdir, *env, *volumes), missing, id, t1, t2),
    {
        let missing = first_missing_host_path(volumes);
        let box_id = crate::ids::gen_id("box");
        let t1 = crate::clock::now_rfc3339();
        let t2 = crate::clock::now_rfc3339();
        proof {
            reveal_strlit("box");
            reveal_strlit("_");
            reveal_strlit("box_");
            assert("box"@ + "_"@ =~= "box_"@);
        }
        let missing_ref: Option<&str> = match &missing {
            Some(p) => Some(p.as_str()),
            None => None,
        };
        proof {
            assert(opt_str_view(missing_ref) == opt_view(missing));
            assert(box_id@.len() == 16);
            assert(box_id@.subrange(0, 4) == "box_"@);
            if missing is Some {
                let i = choose|i: int| 0 <= i < volumes->0@.len() && (#[trigger] volumes->0@[i]).host_path@ == missing->0@;
                assert(volumes_view(*volumes)->0[i] == volumes->0@[i]);
                assert(is_volume_host_path(volumes_view(*volumes), missing->0@));
            }
        }
        let r = self.create_box_with(image, name, cpu, memory_mb, disk_size_gb, network, workdir, env, volumes, missing_ref, box_id.as_str(), t1.as_str(), t2.as_str());
        proof {
            let a = create_args(image, name, cpu, memory_mb, disk_size_gb, network, workdir, *env, *volumes);
            assert(create_box_next(old(self)@, a, opt_view(missing), box_id@, t1@, t2@) == self@);
        }
        r
    }


    /// Starts a run in a short-lived box, with the missing volume host
    /// path, the ids and the times given: creates the box that the request
    /// asks for and starts its command in it. When the command cannot be
    /// started, the box is removed again before the error is answered.
    pub fn start_run_with(
        &mut self,
        req: &RunRequest,
        missing_host_path: Option<&str>,
        box_id: &str,
        t_created: &str,
        t_started: &str,
        exec_id: &str,
        ts: &str,
    ) -> (r: Result<(String, String), BoxRunError>)
        requires
            create_box_fits(old(self)@, run_args(*req)),
        ensures
            final(self)@ == run_start_next(old(self)@, *req, opt_str_view(missing_host_path), box_id@, t_created@, t_started@, exec_id@, ts@),
            match r {
                Ok((b, x)) => run_start_answer(old(self)@, *req, opt_str_view(missing_host_path), box_id@, t_created@, t_started@, exec_id@, ts@)
                    == Ok::<(Seq<char>, Seq<char>), (ErrorCode, Seq<char>)>((b@, x@)),
                Err(e) => run_start_answer(old(self)@, *req, opt_str_view(missing_host_path), box_id@, t_created@, t_started@, exec_id@, ts@)
                    == Err::<(Seq<char>, Seq<char>), (ErrorCode, Seq<char>)>(err_view(e)),
            },
    {
        let ghost m0 = self@;
        let ghost a = run_args(*req);
        let ghost missing = opt_str_view(missing_host_path);
        let image = req.image.as_str();
        proof {
            reveal_strlit("/root");
            assert(a == create_args(image, None, req.cpu, req.memory_mb, req.disk_size_gb, req.network, "/root", req.env, req.volumes));
            law_refused_create_changes_nothing(m0, a, missing, box_id@, t_created@, t_started@);
        }
        match self.create_box_with(image, None, req.cpu, req.memory_mb, req.disk_size_gb, req.network, "/root",
            &req.env, &req.volumes, missing_host_path, box_id, t_created, t_started) {
            Ok(_) => {},
            Err(e) => return Err(e),
        }
        let ghost m1 = self@;
        proof {
            law_refused_exec_request_changes_nothing(m1, box_id@, req.cmd@, env_view(req.env), None, req.timeout_ms, exec_id@, ts@);
            law_created_box_removed_restores(m0, a, missing, box_id@, t_created@, t_started@);
        }
        match self.exec_in_box_with(box_id, req.cmd.as_slice(), &req.env, None, req.timeout_ms, exec_id, ts) {
            Ok(x) => Ok((box_id.to_owned(), x.id)),
            Err(e) => {
                let _ = self.remove_box(box_id, true);
                Err(e)
            },
        }
    }

    /// Starts a run in a short-lived box under a fresh box id and a fresh
    /// execution id. A run whose box or command cannot be started leaves
    /// the totals and the boxes as they were.
    pub fn start_run(&mut self, req: &RunRequest) -> (r: Result<(String, String), BoxRunError>)
        requires
            create_box_fits(old(self)@, run_args(*req)),
        ensures
            exists|missing: Option<Seq<char>>, box_id: Seq<char>, t1: Seq<char>, t2: Seq<char>, exec_id: Seq<char>, ts: Seq<char>|
                #![trigger run_start_next(old(self)@, *req, missing, box_id, t1, t2, exec_id, ts)]
                (missing is None || is_volume_host_path(volumes_view(req.volumes), missing->0))
                && final(self)@ == run_start_next(old(self)@, *req, missing, box_id, t1, t2, exec_id, ts)
                && match r {
                    Ok((b, x)) => run_start_answer(old(self)@, *req, missing, box_id, t1, t2, exec_id, ts)
                        == Ok::<(Seq<char>, Seq<char>), (ErrorCode, Seq<char>)>((b@, x@)),
                    Err(e) => run_start_answer(old(self)@, *req, missing, box_id, t1, t2, exec_id, ts)
                        == Err::<(Seq<char>, Seq<char>), (ErrorCode, Seq<char>)>(err_view(e)),
                },
            r is Err ==> final(self)@.total_cpu == old(self)@.total_cpu
                && final(self)@.total_memory_mb == old(self)@.total_memory_mb
                && final(self)@.box_count == old(self)@.box_count
                && final(self)@.store.boxes == old(self)@.store.boxes,
    {
        let ghost m0 = self@;
        let missing = first_missing_host_path(&req.volumes);
        let box_id = crate::ids::gen_id("box");
        let t1 = crate::clock::now_rfc3339();
        let t2 = crate::clock::now_rfc3339();
        let exec_id = crate::ids::gen_id("exec");
        let ts = crate::clock::now_rfc3339();
        let missing_ref: Option<&str> = match &missing {
            Some(p) => Some(p.as_str()),
            None => None,
        };
        let ghost mv = opt_str_view(missing_ref);
        proof {
            assert(mv == opt_view(missing));
            if missing is Some {
                let i = choose|i: int| 0 <= i < req.volumes->0@.len() && (#[trigger] req.volumes->0@[i]).host_path@ == missing->0@;
                assert(volumes_view(req.volumes)->0[i] == req.volumes->0@[i]);
                assert(is_volume_host_path(volumes_view(req.volumes), missing->0@));
            }
            law_refused_create_changes_nothing(m0, run_args(*req), mv, box_id@, t1@, t2@);
            let m1 = create_box_next(m0, run_args(*req), mv, box_id@, t1@, t2@);
            law_refused_exec_request_changes_nothing(m1, box_id@, req.cmd@, env_view(req.env), None, req.timeout_ms, exec_id@, ts@);
            if create_box_answer(m0, run_args(*req), mv, box_id@, t1@, t2@) is Ok {
                law_created_box_removed_restores(m0, run_args(*req), mv, box_id@, t1@, t2@);
            }
        }
        let r = self.start_run_with(req, missing_ref, box_id.as_str(),
            t1.as_str(), t2.as_str(), exec_id.as_str(), ts.as_str());
        r
    }

    /// Whether taking a box's CPU and memory fits the totals.
    pub fn claim_fits(&self, cpu: i64, memory_mb: i64) -> (r: bool)
        ensures
            r == can_claim(self@, cpu, memory_mb),
    {
        (i64::MIN as i128) <= (self.resources.total_cpu as i128) + (cpu as i128)
            && (i64::MIN as i128) <= (self.resources.total_memory_mb as i128) + (memory_mb as i128)
            && self.resources.box_count < i64::MAX
    }

    /// Whether starting a box fits the totals.
    pub fn start_fits(&self, id_or_name: &str) -> (r: bool)
        ensures
            r == start_box_fits(self@, id_or_name@),
    {
        match self.get_box(id_or_name) {
            Ok(b) => if str_eq(b.status.as_str(), "stopped") {
                self.claim_fits(b.cpu, b.memory_mb)
            } else {
                true
            },
            Err(_) => true,
        }
    }

    /// Whether removing a box by force, or stopping it, fits the totals.
    pub fn removal_fits(&self, id_or_name: &str) -> (r: bool)
        ensures
            r == remove_box_fits(self@, id_or_name@, true),
            r == stop_box_fits(self@, id_or_name@),
    {
        match self.get_box(id_or_name) {
            Ok(b) => {
                if str_eq(b.status.as_str(), "running") {
                    let c = (self.resources.total_cpu as i128) - (b.cpu as i128);
                    let mm = (self.resources.total_memory_mb as i128) - (b.memory_mb as i128);
                    (i64::MIN as i128) <= c && c <= (i64::MAX as i128) && (i64::MIN as i128) <= mm
                        && mm <= (i64::MAX as i128) && self.resources.box_count > i64::MIN
                } else {
                    true
                }
            },
            Err(_) => true,
        }
    }

    /// Ends a run in a short-lived box: collects the output of its command
    /// from the stored events, in sequence order, and removes the box by
    /// force, whatever the command did.
    pub fn finish_run(&mut self, box_id: &str, exec_id: &str) -> (r: RunResponse)
        requires
            remove_box_fits(old(self)@, box_id@, true),
        ensures
            final(self)@ == remove_box_next(old(self)@, box_id@, true),
            (r.stdout@, r.stderr@, r.exit_code) == run_output(exec_events(old(self)@.store, exec_id@)),
            r.error_message is None,
    {
        let events = match self.store.get_events(exec_id, 0) {
            Ok(v) => v,
            Err(_) => Vec::new(),
        };
        let out = collect_run_output(events.as_slice());
        let _ = self.remove_box(box_id, true);
        out
    }
    /// Removes the boxes that a collection with a cutoff selects, and
    /// answers how many there were.
    pub fn gc_before(&mut self, cutoff: &str) -> (r: Result<i64, BoxRunError>)
        ensures
            final(self)@ == with_store(old(self)@, delete_all(old(self)@.store, gc_ids(old(self)@.store, cutoff@))),
            r == Ok::<i64, BoxRunError>(gc_ids(old(self)@.store, cutoff@).len() as i64),
    {
        let ids = match self.store.gc_stopped_boxes_before(cutoff) {
            Ok(v) => v,
            Err(e) => return Err(fail(ErrorCode::RuntimeError, e)),
        };
        let ghost all = string_views(ids@);
        let ghost start = self@;
        let count = ids.len() as i64;
        let mut i: usize = 0;
        proof {
            assert(all == gc_ids(start.store, cutoff@));
            assert(all.skip(0) =~= all);
        }
        while i < ids.len()
            invariant
                i <= ids@.len(),
                all == string_views(ids@),
                delete_all(start.store, all) == delete_all(self@.store, all.skip(i as int)),
                self@ == with_store(start, self@.store),
            decreases ids@.len() - i,
        {
            proof {
                assert(all.skip(i as int).drop_first() =~= all.skip(i + 1));
                assert(all.skip(i as int)[0] == ids@[i as int]@);
            }
            match self.store.delete_box(ids[i].as_str()) {
                Ok(()) => {},
                Err(e) => return Err(fail(ErrorCode::RuntimeError, e)),
            }
            i = i + 1;
        }
        proof {
            assert(all.skip(ids@.len() as int) =~= Seq::empty());
        }
        Ok(count)
    }

    /// Removes the boxes stopped, or in error, for longer than `older_than`
    /// seconds, and answers how many there were.
    pub fn gc(&mut self, older_than: i64) -> (r: Result<i64, BoxRunError>)
        requires
            -8_200_000_000_000 <= older_than <= 8_200_000_000_000,
        ensures
            exists|cutoff: Seq<char>| #![trigger gc_ids(old(self)@.store, cutoff)]
                crate::clock::rfc3339_shape(cutoff)
                && final(self)@ == with_store(old(self)@, delete_all(old(self)@.store, gc_ids(old(self)@.store, cutoff)))
                && r == Ok::<i64, BoxRunError>(gc_ids(old(self)@.store, cutoff).len() as i64),
    {
        let cutoff = crate::clock::rfc3339_seconds_ago(older_than);
        self.gc_before(cutoff.as_str())
    }

    /// Takes over the boxes that the store records as running or being
    /// created with a virtual machine id, and counts their resources.
    pub fn init(&mut self) -> (r: Result<(), String>)
        requires
            init_fits(old(self)@, listing(old(self)@.store)),
        ensures
            r is Ok,
            final(self)@ == init_fold(old(self)@, listing(old(self)@.store)),
    {
        let boxes = match self.store.list_boxes(None) {
            Ok(v) => v,
            Err(e) => return Err(e),
        };
        let ghost rows = box_views(boxes@);
        let ghost start = self@;
        proof {
            assert(rows == listing(start.store));
            assert(rows.skip(0) =~= rows);
        }
        let mut i: usize = 0;
        while i < boxes.len()
            invariant
                i <= boxes@.len(),
                rows == box_views(boxes@),
                init_fold(start, rows) == init_fold(self@, rows.skip(i as int)),
                init_fits(self@, rows.skip(i as int)),
            decreases boxes@.len() - i,
        {
            let b = &boxes[i];
            proof {
                assert(rows.skip(i as int).drop_first() =~= rows.skip(i + 1));
                assert(rows.skip(i as int)[0] == b@);
            }
            let held = (str_eq(b.status.as_str(), "running") || str_eq(b.status.as_str(), "creating")) && b.boxlite_id.is_some();
            if held {
                add_id(&mut self.box_handles, b.id.as_str());
                self.resources.total_cpu = self.resources.total_cpu + b.cpu;
                self.resources.total_memory_mb = self.resources.total_memory_mb + b.memory_mb;
                self.resources.box_count = self.resources.box_count + 1;
            }
            i = i + 1;
        }
        proof {
            assert(rows.skip(boxes@.len() as int) =~= Seq::empty());
        }
        Ok(())
    }

    /// Calls off every completion still to come.
    pub fn shutdown(&mut self)
        ensures
            final(self)@ == (ManagerView { tasks: Seq::empty(), ..old(self)@ }),
    {
        self.exec_tasks = Vec::new();
        proof {
            assert(string_views(self.exec_tasks@) =~= Seq::empty());
        }
    }

    /// Subscribes to the events of an execution.
    pub fn subscribe_events(&mut self, exec_id: &str) -> (sub: Subscription)
        requires
            old(self)@.bus.next_id < u64::MAX,
        ensures
            final(self)@ == (ManagerView { bus: subscribed(old(self)@.bus, exec_id@), ..old(self)@ }),
            sub.sub_id() == old(self)@.bus.next_id,
            sub.exec_of() == exec_id@,
    {
        self.event_bus.subscribe(exec_id)
    }

    /// Whether another subscription can be handed out.
    pub fn can_subscribe_events(&self) -> (r: bool)
        ensures
            r == (self@.bus.next_id < u64::MAX),
    {
        self.event_bus.can_subscribe()
    }

    /// Receives what a subscription has waiting.
    pub fn receive_event(&mut self, sub: &Subscription) -> (r: Received)
        ensures
            (final(self)@.bus, received_view(r)) == receive(old(self)@.bus, sub.sub_id()),
            final(self)@ == (ManagerView { bus: final(self)@.bus, ..old(self)@ }),
    {
        sub.recv(&mut self.event_bus)
    }

    /// Drops a subscription.
    pub fn unsubscribe_events(&mut self, sub: Subscription)
        ensures
            final(self)@ == (ManagerView { bus: unsubscribed(old(self)@.bus, sub.sub_id()), ..old(self)@ }),
    {
        self.event_bus.unsubscribe(sub)
    }
}

} // verus!
