//! The store of boxes, executions and output events, with the query
//! semantics of the server's tables: identifiers and box names are
//! unique, lookups go by id and then by name, listings come newest first,
//! and events come in sequence order.
use vstd::prelude::*;
use std::collections::HashMap;
use crate::models::{Volume, duplicate_volumes, duplicate_env, opt_view};
use crate::seqs::{first_index, keep, lemma_keep_elements, order_by, lemma_first_index, lemma_first_index_at, lemma_first_index_none, lemma_keep_take_succ, lemma_order_by_push, lemma_insert_ordered_at};
use crate::text::{str_eq, str_lt, join2, join3, seq_lt, int_text, i64_to_text};
use crate::config::{parsed_i64, parse_i64};
use crate::json::{env_json, read_env_json};
use crate::clock::{now_rfc3339, rfc3339_seconds_ago};

verus! {

/// A box as the store holds it.
#[derive(Debug, Clone)]
pub struct BoxRow {
    pub id: String,
    pub name: Option<String>,
    pub status: String,
    pub image: String,
    pub cpu: i64,
    pub memory_mb: i64,
    pub disk_size_gb: i64,
    pub network: bool,
    pub workdir: String,
    pub env: Option<HashMap<String, String>>,
    pub volumes: Option<Vec<Volume>>,
    pub boxlite_id: Option<String>,
    pub error_code: Option<String>,
    pub error_message: Option<String>,
    pub created_at: String,
    pub started_at: Option<String>,
    pub stopped_at: Option<String>,
}

/// The content of a box row, with text as character sequences.
pub struct BoxRowView {
    pub id: Seq<char>,
    pub name: Option<Seq<char>>,
    pub status: Seq<char>,
    pub image: Seq<char>,
    pub cpu: i64,
    pub memory_mb: i64,
    pub disk_size_gb: i64,
    pub network: bool,
    pub workdir: Seq<char>,
    pub env: Option<Map<String, String>>,
    pub volumes: Option<Seq<Volume>>,
    pub boxlite_id: Option<Seq<char>>,
    pub error_code: Option<Seq<char>>,
    pub error_message: Option<Seq<char>>,
    pub created_at: Seq<char>,
    pub started_at: Option<Seq<char>>,
    pub stopped_at: Option<Seq<char>>,
}

pub open spec fn env_view(e: Option<HashMap<String, String>>) -> Option<Map<String, String>> {
    match e {
        Some(m) => Some(m@),
        None => None,
    }
}

pub open spec fn volumes_view(v: Option<Vec<Volume>>) -> Option<Seq<Volume>> {
    match v {
        Some(l) => Some(l@),
        None => None,
    }
}

impl View for BoxRow {
    type V = BoxRowView;

    open spec fn view(&self) -> BoxRowView {
        BoxRowView {
            id: self.id@,
            name: opt_view(self.name),
            status: self.status@,
            image: self.image@,
            cpu: self.cpu,
            memory_mb: self.memory_mb,
            disk_size_gb: self.disk_size_gb,
            network: self.network,
            workdir: self.workdir@,
            env: env_view(self.env),
            volumes: volumes_view(self.volumes),
            boxlite_id: opt_view(self.boxlite_id),
            error_code: opt_view(self.error_code),
            error_message: opt_view(self.error_message),
            created_at: self.created_at@,
            started_at: opt_view(self.started_at),
            stopped_at: opt_view(self.stopped_at),
        }
    }
}

/// A copy of an optional string.
pub fn duplicate_opt(s: &Option<String>) -> (r: Option<String>)
    ensures
        r == *s,
{
    match s {
        Some(x) => Some(x.clone()),
        None => None,
    }
}

/// A copy of an optional string slice as an owned string.
pub fn owned_opt(s: Option<&str>) -> (r: Option<String>)
    ensures
        opt_view(r) == match s { Some(x) => Some(x@), None => None::<Seq<char>> },
{
    match s {
        Some(x) => Some(x.to_owned()),
        None => None,
    }
}

/// A copy of a list of strings.
pub fn duplicate_strings(v: &[String]) -> (r: Vec<String>)
    ensures
        r@ == v@,
{
    let mut out: Vec<String> = Vec::new();
    let mut i: usize = 0;
    while i < v.len()
        invariant
            i <= v@.len(),
            out@ == v@.subrange(0, i as int),
        decreases v@.len() - i,
    {
        out.push(v[i].clone());
        proof {
            assert(v@.subrange(0, i + 1) =~= v@.subrange(0, i as int).push(v@[i as int]));
        }
        i = i + 1;
    }
    proof {
        assert(v@.subrange(0, v@.len() as int) =~= v@);
    }
    out
}

impl BoxRow {
    /// A copy of the row.
    pub fn duplicate(&self) -> (r: BoxRow)
        ensures
            r@ == self@,
    {
        BoxRow {
            id: self.id.clone(),
            name: duplicate_opt(&self.name),
            status: self.status.clone(),
            image: self.image.clone(),
            cpu: self.cpu,
            memory_mb: self.memory_mb,
            disk_size_gb: self.disk_size_gb,
            network: self.network,
            workdir: self.workdir.clone(),
            env: duplicate_env(&self.env),
            volumes: duplicate_volumes(&self.volumes),
            boxlite_id: duplicate_opt(&self.boxlite_id),
            error_code: duplicate_opt(&self.error_code),
            error_message: duplicate_opt(&self.error_message),
            created_at: self.created_at.clone(),
            started_at: duplicate_opt(&self.started_at),
            stopped_at: duplicate_opt(&self.stopped_at),
        }
    }
}

/// An execution as the store holds it.
#[derive(Debug, Clone)]
pub struct ExecRow {
    pub id: String,
    pub box_id: String,
    pub status: String,
    pub cmd: Vec<String>,
    pub env: Option<HashMap<String, String>>,
    pub workdir: Option<String>,
    pub timeout_ms: Option<i64>,
    pub exit_code: Option<i64>,
    pub error_message: Option<String>,
    pub created_at: String,
    pub finished_at: Option<String>,
}

/// The content of an execution row.
pub struct ExecRowView {
    pub id: Seq<char>,
    pub box_id: Seq<char>,
    pub status: Seq<char>,
    pub cmd: Seq<String>,
    pub env: Option<Map<String, String>>,
    pub workdir: Option<Seq<char>>,
    pub timeout_ms: Option<i64>,
    pub exit_code: Option<i64>,
    pub error_message: Option<Seq<char>>,
    pub created_at: Seq<char>,
    pub finished_at: Option<Seq<char>>,
}

impl View for ExecRow {
    type V = ExecRowView;

    open spec fn view(&self) -> ExecRowView {
        ExecRowView {
            id: self.id@,
            box_id: self.box_id@,
            status: self.status@,
            cmd: self.cmd@,
            env: env_view(self.env),
            workdir: opt_view(self.workdir),
            timeout_ms: self.timeout_ms,
            exit_code: self.exit_code,
            error_message: opt_view(self.error_message),
            created_at: self.created_at@,
            finished_at: opt_view(self.finished_at),
        }
    }
}

impl ExecRow {
    /// A copy of the row.
    pub fn duplicate(&self) -> (r: ExecRow)
        ensures
            r@ == self@,
    {
        ExecRow {
            id: self.id.clone(),
            box_id: self.box_id.clone(),
            status: self.status.clone(),
            cmd: duplicate_strings(self.cmd.as_slice()),
            env: duplicate_env(&self.env),
            workdir: duplicate_opt(&self.workdir),
            timeout_ms: self.timeout_ms,
            exit_code: self.exit_code,
            error_message: duplicate_opt(&self.error_message),
            created_at: self.created_at.clone(),
            finished_at: duplicate_opt(&self.finished_at),
        }
    }
}

/// An output event of an execution as the store holds it.
#[derive(Debug, Clone)]
pub struct EventRow {
    pub id: i64,
    pub exec_id: String,
    pub seq: i64,
    pub event_type: String,
    pub stream: Option<String>,
    pub data: String,
    pub created_at: String,
}

/// The content of an event row.
pub struct EventRowView {
    pub id: i64,
    pub exec_id: Seq<char>,
    pub seq: i64,
    pub event_type: Seq<char>,
    pub stream: Option<Seq<char>>,
    pub data: Seq<char>,
    pub created_at: Seq<char>,
}

impl View for EventRow {
    type V = EventRowView;

    open spec fn view(&self) -> EventRowView {
        EventRowView {
            id: self.id,
            exec_id: self.exec_id@,
            seq: self.seq,
            event_type: self.event_type@,
            stream: opt_view(self.stream),
            data: self.data@,
            created_at: self.created_at@,
        }
    }
}

impl EventRow {
    /// A copy of the row.
    pub fn duplicate(&self) -> (r: EventRow)
        ensures
            r@ == self@,
    {
        EventRow {
            id: self.id,
            exec_id: self.exec_id.clone(),
            seq: self.seq,
            event_type: self.event_type.clone(),
            stream: duplicate_opt(&self.stream),
            data: self.data.clone(),
            created_at: self.created_at.clone(),
        }
    }
}

/// A value for one column of a box update.
#[derive(Debug, Clone)]
pub enum BoxValue {
    Text(String),
    Int(i64),
    Bool(bool),
    Null,
    Env(Option<HashMap<String, String>>),
    Volumes(Option<Vec<Volume>>),
}

/// The content of a box update value.
pub enum BoxValueView {
    Text(Seq<char>),
    Int(i64),
    Bool(bool),
    Null,
    Env(Option<Map<String, String>>),
    Volumes(Option<Seq<Volume>>),
}

impl View for BoxValue {
    type V = BoxValueView;

    open spec fn view(&self) -> BoxValueView {
        match self {
            BoxValue::Text(s) => BoxValueView::Text(s@),
            BoxValue::Int(i) => BoxValueView::Int(*i),
            BoxValue::Bool(b) => BoxValueView::Bool(*b),
            BoxValue::Null => BoxValueView::Null,
            BoxValue::Env(e) => BoxValueView::Env(env_view(*e)),
            BoxValue::Volumes(v) => BoxValueView::Volumes(volumes_view(*v)),
        }
    }
}

/// The content of the whole store.
pub struct StoreView {
    pub boxes: Seq<BoxRowView>,
    pub execs: Seq<ExecRowView>,
    pub events: Seq<EventRowView>,
    pub last_event_id: i64,
}

pub open spec fn box_views(s: Seq<BoxRow>) -> Seq<BoxRowView> {
    s.map_values(|r: BoxRow| r@)
}

pub open spec fn exec_views(s: Seq<ExecRow>) -> Seq<ExecRowView> {
    s.map_values(|r: ExecRow| r@)
}

pub open spec fn event_views(s: Seq<EventRow>) -> Seq<EventRowView> {
    s.map_values(|r: EventRow| r@)
}

/// Whether a box row has the given id.
pub open spec fn box_has_id(id: Seq<char>) -> spec_fn(BoxRowView) -> bool {
    |r: BoxRowView| r.id == id
}

/// Whether a box row has the given name.
pub open spec fn box_has_name(name: Seq<char>) -> spec_fn(BoxRowView) -> bool {
    |r: BoxRowView| r.name == Some(name)
}

/// Whether an execution row has the given id.
pub open spec fn exec_has_id(id: Seq<char>) -> spec_fn(ExecRowView) -> bool {
    |r: ExecRowView| r.id == id
}

/// Whether an execution row belongs to the given box.
pub open spec fn exec_of_box(box_id: Seq<char>) -> spec_fn(ExecRowView) -> bool {
    |r: ExecRowView| r.box_id == box_id
}

/// Whether a box row passes a status filter: no filter and "all" pass
/// every box, any other text passes the boxes with that status.
pub open spec fn status_filter(status: Option<Seq<char>>) -> spec_fn(BoxRowView) -> bool {
    |r: BoxRowView| match status {
        None => true,
        Some(s) => s == "all"@ || r.status == s,
    }
}

/// Newer boxes come first: `a` precedes `b` when it was created later.
pub open spec fn box_newer_first() -> spec_fn(BoxRowView, BoxRowView) -> bool {
    |a: BoxRowView, b: BoxRowView| seq_lt(b.created_at, a.created_at)
}

/// Newer executions come first.
pub open spec fn exec_newer_first() -> spec_fn(ExecRowView, ExecRowView) -> bool {
    |a: ExecRowView, b: ExecRowView| seq_lt(b.created_at, a.created_at)
}

/// Events come by increasing sequence number.
pub open spec fn event_seq_first() -> spec_fn(EventRowView, EventRowView) -> bool {
    |a: EventRowView, b: EventRowView| a.seq < b.seq
}

/// Whether an event belongs to an execution and is at or past a sequence number.
pub open spec fn event_wanted(exec_id: Seq<char>, since_seq: i64) -> spec_fn(EventRowView) -> bool {
    |e: EventRowView| e.exec_id == exec_id && e.seq >= since_seq
}

/// The box that a key names: the box with that id, else the box with
/// that name.
pub open spec fn lookup_box(boxes: Seq<BoxRowView>, key: Seq<char>) -> Option<BoxRowView> {
    match first_index(boxes, box_has_id(key)) {
        Some(i) => Some(boxes[i]),
        None => match first_index(boxes, box_has_name(key)) {
            Some(i) => Some(boxes[i]),
            None => None,
        },
    }
}

/// The box with an id.
pub open spec fn box_by_id(boxes: Seq<BoxRowView>, id: Seq<char>) -> Option<BoxRowView> {
    match first_index(boxes, box_has_id(id)) {
        Some(i) => Some(boxes[i]),
        None => None,
    }
}

/// The execution with an id.
pub open spec fn exec_by_id(execs: Seq<ExecRowView>, id: Seq<char>) -> Option<ExecRowView> {
    match first_index(execs, exec_has_id(id)) {
        Some(i) => Some(execs[i]),
        None => None,
    }
}

/// A freshly inserted box.
pub open spec fn new_box_row(
    id: Seq<char>,
    name: Option<Seq<char>>,
    image: Seq<char>,
    cpu: i64,
    memory_mb: i64,
    disk_size_gb: i64,
    network: bool,
    workdir: Seq<char>,
    env: Option<Map<String, String>>,
    volumes: Option<Seq<Volume>>,
    ts: Seq<char>,
) -> BoxRowView {
    BoxRowView {
        id,
        name,
        status: "creating"@,
        image,
        cpu,
        memory_mb,
        disk_size_gb,
        network,
        workdir,
        env,
        volumes,
        boxlite_id: None,
        error_code: None,
        error_message: None,
        created_at: ts,
        started_at: None,
        stopped_at: None,
    }
}

/// The message with which inserting a box fails, if it does: a taken
/// name, or a taken id, break the table's uniqueness; the message names
/// the box's name whenever there is one.
pub open spec fn create_box_conflict(boxes: Seq<BoxRowView>, id: Seq<char>, name: Option<Seq<char>>) -> Option<Seq<char>> {
    let id_taken = first_index(boxes, box_has_id(id)) is Some;
    let name_taken = match name {
        Some(n) => first_index(boxes, box_has_name(n)) is Some,
        None => false,
    };
    if id_taken || name_taken {
        match name {
            Some(n) => Some("A box with name '"@ + n + "' already exists"@),
            None => Some("UNIQUE constraint failed: boxes.id"@),
        }
    } else {
        None
    }
}

/// A freshly inserted execution.
pub open spec fn new_exec_row(
    id: Seq<char>,
    box_id: Seq<char>,
    cmd: Seq<String>,
    env: Option<Map<String, String>>,
    workdir: Option<Seq<char>>,
    timeout_ms: Option<i64>,
    ts: Seq<char>,
) -> ExecRowView {
    ExecRowView {
        id,
        box_id,
        status: "running"@,
        cmd,
        env,
        workdir,
        timeout_ms,
        exit_code: None,
        error_message: None,
        created_at: ts,
        finished_at: None,
    }
}

/// The message with which inserting an execution fails, if it does.
pub open spec fn create_exec_conflict(s: StoreView, id: Seq<char>, box_id: Seq<char>) -> Option<Seq<char>> {
    if first_index(s.execs, exec_has_id(id)) is Some {
        Some("UNIQUE constraint failed: execs.id"@)
    } else if first_index(s.boxes, box_has_id(box_id)) is None {
        Some("FOREIGN KEY constraint failed"@)
    } else {
        None
    }
}

/// The status a finished execution gets.
pub open spec fn finished_status(exit_code: i64, error_message: Option<Seq<char>>) -> Seq<char> {
    if error_message is Some {
        "failed"@
    } else if exit_code == 0 {
        "succeeded"@
    } else {
        "failed"@
    }
}

/// The executions after one is marked finished.
pub open spec fn finish_execs(execs: Seq<ExecRowView>, id: Seq<char>, exit_code: i64, error_message: Option<Seq<char>>, ts: Seq<char>) -> Seq<ExecRowView> {
    execs.map_values(|r: ExecRowView| if r.id == id {
        ExecRowView {
            status: finished_status(exit_code, error_message),
            exit_code: Some(exit_code),
            error_message,
            finished_at: Some(ts),
            ..r
        }
    } else {
        r
    })
}

/// The executions after one is marked canceled.
pub open spec fn cancel_execs(execs: Seq<ExecRowView>, id: Seq<char>, ts: Seq<char>) -> Seq<ExecRowView> {
    execs.map_values(|r: ExecRowView| if r.id == id {
        ExecRowView { status: "canceled"@, finished_at: Some(ts), ..r }
    } else {
        r
    })
}

/// Whether an event belongs to an execution of the given box.
pub open spec fn event_of_box(execs: Seq<ExecRowView>, box_id: Seq<char>) -> spec_fn(EventRowView) -> bool {
    |e: EventRowView| exists|k: int| 0 <= k < execs.len() && execs[k].box_id == box_id && #[trigger] execs[k].id == e.exec_id
}

/// Whether a box is old enough to be collected: stopped before the
/// cutoff, or in error and created before the cutoff.
pub open spec fn collectable(cutoff: Seq<char>) -> spec_fn(BoxRowView) -> bool {
    |r: BoxRowView|
        (r.status == "stopped"@ && r.stopped_at is Some && seq_lt(r.stopped_at->0, cutoff))
        || (r.status == "error"@ && seq_lt(r.created_at, cutoff))
}

/// The store of boxes, executions and events.
pub struct Store {
    boxes: Vec<BoxRow>,
    execs: Vec<ExecRow>,
    events: Vec<EventRow>,
    last_event_id: i64,
}

impl View for Store {
    type V = StoreView;

    closed spec fn view(&self) -> StoreView {
        StoreView {
            boxes: box_views(self.boxes@),
            execs: exec_views(self.execs@),
            events: event_views(self.events@),
            last_event_id: self.last_event_id,
        }
    }
}

/// What the store's invariant says: no two of its boxes share an id.
pub proof fn lemma_store_ids_unique(s: Store)
    requires
        s.has_unique_box_ids(),
    ensures
        ids_unique(s@.boxes),
{
}

impl Store {
    /// No two boxes of a store share an id: every store keeps this.
    #[verifier::type_invariant]
    pub closed spec fn has_unique_box_ids(&self) -> bool {
        ids_unique(box_views(self.boxes@))
    }
}


/// The content of an optional box row.
pub open spec fn opt_box_view(o: Option<BoxRow>) -> Option<BoxRowView> {
    match o {
        Some(r) => Some(r@),
        None => None,
    }
}

/// The content of an optional execution row.
pub open spec fn opt_exec_view(o: Option<ExecRow>) -> Option<ExecRowView> {
    match o {
        Some(r) => Some(r@),
        None => None,
    }
}

pub open spec fn opt_str_view(o: Option<&str>) -> Option<Seq<char>> {
    match o {
        Some(x) => Some(x@),
        None => None,
    }
}

impl StoreView {
    pub open spec fn with_boxes(self, boxes: Seq<BoxRowView>) -> StoreView {
        StoreView { boxes, ..self }
    }

    pub open spec fn with_execs(self, execs: Seq<ExecRowView>) -> StoreView {
        StoreView { execs, ..self }
    }
}

/// The store after an event is appended with the next identifier.
pub open spec fn with_event(
    s: StoreView,
    exec_id: Seq<char>,
    seq: i64,
    event_type: Seq<char>,
    data: Seq<char>,
    stream: Option<Seq<char>>,
    ts: Seq<char>,
) -> StoreView {
    StoreView {
        events: s.events.push(EventRowView {
            id: (s.last_event_id + 1) as i64,
            exec_id,
            seq,
            event_type,
            stream,
            data,
            created_at: ts,
        }),
        last_event_id: (s.last_event_id + 1) as i64,
        ..s
    }
}

/// The store with an event put back under its own identifier.
pub open spec fn with_restored_event(s: StoreView, e: EventRowView) -> StoreView {
    StoreView {
        events: s.events.push(e),
        last_event_id: if e.id > s.last_event_id { e.id } else { s.last_event_id },
        ..s
    }
}

/// Whether a box row has an id other than the given one.
pub open spec fn box_id_other_than(x: Seq<char>) -> spec_fn(BoxRowView) -> bool {
    |b: BoxRowView| b.id != x
}

/// The store after a box is removed with its executions and their events.
pub open spec fn after_delete_box(s: StoreView, box_id: Seq<char>) -> StoreView {
    StoreView {
        boxes: keep(s.boxes, box_id_other_than(box_id)),
        execs: keep(s.execs, |e: ExecRowView| e.box_id != box_id),
        events: keep(s.events, |ev: EventRowView| !event_of_box(s.execs, box_id)(ev)),
        ..s
    }
}

impl Store {
    /// An empty store.
    pub fn new() -> (s: Store)
        ensures
            s@.boxes.len() == 0,
            s@.execs.len() == 0,
            s@.events.len() == 0,
            s@.last_event_id == 0,
            ids_unique(s@.boxes),
    {
        let s = Store { boxes: Vec::new(), execs: Vec::new(), events: Vec::new(), last_event_id: 0 };
        proof {
            assert(box_views(s.boxes@) =~= Seq::empty());
            assert(exec_views(s.execs@) =~= Seq::empty());
            assert(event_views(s.events@) =~= Seq::empty());
        }
        s
    }

    fn find_box_by_id(&self, id: &str) -> (r: Option<usize>)
        ensures
            match r {
                Some(i) => first_index(self@.boxes, box_has_id(id@)) == Some(i as int),
                None => first_index(self@.boxes, box_has_id(id@)) is None,
            },
            r matches Some(i) ==> i < self.boxes@.len() && self@.boxes[i as int] == self.boxes@[i as int]@,
    {
        let mut i: usize = 0;
        while i < self.boxes.len()
            invariant
                i <= self.boxes@.len(),
                self@.boxes.len() == self.boxes@.len(),
                forall|j: int| 0 <= j < i ==> !box_has_id(id@)(#[trigger] self@.boxes[j]),
            decreases self.boxes@.len() - i,
        {
            if str_eq(self.boxes[i].id.as_str(), id) {
                proof {
                    lemma_first_index_at(self@.boxes, box_has_id(id@), i as int);
                }
                return Some(i);
            }
            i = i + 1;
        }
        proof {
            lemma_first_index_none(self@.boxes, box_has_id(id@));
        }
        None
    }

    fn find_box_by_name(&self, name: &str) -> (r: Option<usize>)
        ensures
            match r {
                Some(i) => first_index(self@.boxes, box_has_name(name@)) == Some(i as int),
                None => first_index(self@.boxes, box_has_name(name@)) is None,
            },
            r matches Some(i) ==> i < self.boxes@.len() && self@.boxes[i as int] == self.boxes@[i as int]@,
    {
        let mut i: usize = 0;
        while i < self.boxes.len()
            invariant
                i <= self.boxes@.len(),
                self@.boxes.len() == self.boxes@.len(),
                forall|j: int| 0 <= j < i ==> !box_has_name(name@)(#[trigger] self@.boxes[j]),
            decreases self.boxes@.len() - i,
        {
            let matches = match &self.boxes[i].name {
                Some(n) => str_eq(n.as_str(), name),
                None => false,
            };
            if matches {
                proof {
                    lemma_first_index_at(self@.boxes, box_has_name(name@), i as int);
                }
                return Some(i);
            }
            i = i + 1;
        }
        proof {
            lemma_first_index_none(self@.boxes, box_has_name(name@));
        }
        None
    }

    fn find_exec(&self, id: &str) -> (r: Option<usize>)
        ensures
            match r {
                Some(i) => first_index(self@.execs, exec_has_id(id@)) == Some(i as int),
                None => first_index(self@.execs, exec_has_id(id@)) is None,
            },
            r matches Some(i) ==> i < self.execs@.len() && self@.execs[i as int] == self.execs@[i as int]@,
    {
        let mut i: usize = 0;
        while i < self.execs.len()
            invariant
                i <= self.execs@.len(),
                self@.execs.len() == self.execs@.len(),
                forall|j: int| 0 <= j < i ==> !exec_has_id(id@)(#[trigger] self@.execs[j]),
            decreases self.execs@.len() - i,
        {
            if str_eq(self.execs[i].id.as_str(), id) {
                proof {
                    lemma_first_index_at(self@.execs, exec_has_id(id@), i as int);
                }
                return Some(i);
            }
            i = i + 1;
        }
        proof {
            lemma_first_index_none(self@.execs, exec_has_id(id@));
        }
        None
    }

    // -- Boxes ------------------------------------------------------------

    /// The box that a key names: the box with that id, else the box with
    /// that name.
    pub fn get_box(&self, id_or_name: &str) -> (r: Result<Option<BoxRow>, String>)
        ensures
            r matches Ok(o) && opt_box_view(o) == lookup_box(self@.boxes, id_or_name@),
    {
        match self.find_box_by_id(id_or_name) {
            Some(i) => Ok(Some(self.boxes[i].duplicate())),
            None => match self.find_box_by_name(id_or_name) {
                Some(i) => Ok(Some(self.boxes[i].duplicate())),
                None => Ok(None),
            },
        }
    }

    /// Inserts a box in the "creating" status, created at `created_at`.
    pub fn create_box_at(
        &mut self,
        box_id: &str,
        name: Option<&str>,
        image: &str,
        cpu: i64,
        memory_mb: i64,
        disk_size_gb: i64,
        network: bool,
        workdir: &str,
        env: &Option<HashMap<String, String>>,
        volumes: &Option<Vec<Volume>>,
        created_at: &str,
    ) -> (r: Result<BoxRow, String>)
        ensures
            match create_box_conflict(old(self)@.boxes, box_id@, opt_str_view(name)) {
                Some(m) => (r matches Err(e) && e@ == m && final(self)@ == old(self)@),
                None => r matches Ok(row)
                    && row@ == new_box_row(box_id@, opt_str_view(name), image@, cpu, memory_mb,
                        disk_size_gb, network, workdir@, env_view(*env), volumes_view(*volumes), created_at@)
                    && final(self)@ == old(self)@.with_boxes(old(self)@.boxes.push(row@)),
            },
            ids_unique(final(self)@.boxes),
    {
        proof {
            use_type_invariant(&*self);
        }
        let id_taken = self.find_box_by_id(box_id).is_some();
        let name_taken = match name {
            Some(n) => self.find_box_by_name(n).is_some(),
            None => false,
        };
        if id_taken || name_taken {
            return match name {
                Some(n) => Err(join3("A box with name '", n, "' already exists")),
                None => Err("UNIQUE constraint failed: boxes.id".to_owned()),
            };
        }
        let row = BoxRow {
            id: box_id.to_owned(),
            name: owned_opt(name),
            status: "creating".to_owned(),
            image: image.to_owned(),
            cpu,
            memory_mb,
            disk_size_gb,
            network,
            workdir: workdir.to_owned(),
            env: duplicate_env(env),
            volumes: duplicate_volumes(volumes),
            boxlite_id: None,
            error_code: None,
            error_message: None,
            created_at: created_at.to_owned(),
            started_at: None,
            stopped_at: None,
        };
        let out = row.duplicate();
        let ghost old_boxes = self.boxes@;
        proof {
            lemma_unique_push(box_views(old_boxes), out@, opt_str_view(name));
        }
        let mut boxes: Vec<BoxRow> = Vec::new();
        std::mem::swap(&mut boxes, &mut self.boxes);
        boxes.push(row);
        proof {
            assert(box_views(boxes@) =~= box_views(old_boxes).push(out@));
        }
        self.boxes = boxes;
        Ok(out)
    }

    /// Inserts a box in the "creating" status, created now.
    pub fn create_box(
        &mut self,
        box_id: &str,
        name: Option<&str>,
        image: &str,
        cpu: i64,
        memory_mb: i64,
        disk_size_gb: i64,
        network: bool,
        workdir: &str,
        env: &Option<HashMap<String, String>>,
        volumes: &Option<Vec<Volume>>,
    ) -> (r: Result<BoxRow, String>)
        ensures
            match create_box_conflict(old(self)@.boxes, box_id@, opt_str_view(name)) {
                Some(m) => (r matches Err(e) && e@ == m && final(self)@ == old(self)@),
                None => r matches Ok(row)
                    && row@ == new_box_row(box_id@, opt_str_view(name), image@, cpu, memory_mb,
                        disk_size_gb, network, workdir@, env_view(*env), volumes_view(*volumes), row.created_at@)
                    && final(self)@ == old(self)@.with_boxes(old(self)@.boxes.push(row@)),
            },
            ids_unique(final(self)@.boxes),
    {
        let ts = now_rfc3339();
        self.create_box_at(box_id, name, image, cpu, memory_mb, disk_size_gb, network, workdir, env, volumes, ts.as_str())
    }

    /// Removes a box with its executions and their events.
    pub fn delete_box(&mut self, box_id: &str) -> (r: Result<(), String>)
        ensures
            r is Ok,
            final(self)@ == after_delete_box(old(self)@, box_id@),
            ids_unique(final(self)@.boxes),
    {
        proof {
            use_type_invariant(&*self);
        }
        proof {
            lemma_unique_without(self@.boxes, box_id@);
        }
        let ghost old_view = self@;
        // Events of the box's executions.
        let ghost pe = |ev: EventRowView| !event_of_box(old_view.execs, box_id@)(ev);
        let mut new_events: Vec<EventRow> = Vec::new();
        let mut i: usize = 0;
        while i < self.events.len()
            invariant
                i <= self.events@.len(),
                self@ == old_view,
                event_views(new_events@) == keep(old_view.events.take(i as int), pe),
                pe == (|ev: EventRowView| !event_of_box(old_view.execs, box_id@)(ev)),
            decreases self.events@.len() - i,
        {
            let ev = &self.events[i];
            let mut owned = false;
            let mut k: usize = 0;
            while k < self.execs.len()
                invariant
                    k <= self.execs@.len(),
                    self@ == old_view,
                    i < self.events@.len(),
                    *ev == self.events@[i as int],
                    owned == exists|j: int| 0 <= j < k && old_view.execs[j].box_id == box_id@ && #[trigger] old_view.execs[j].id == ev.exec_id@,
                decreases self.execs@.len() - k,
            {
                let e = &self.execs[k];
                proof {
                    assert(old_view.execs[k as int] == self.execs@[k as int]@);
                }
                if str_eq(e.box_id.as_str(), box_id) && str_eq(e.id.as_str(), ev.exec_id.as_str()) {
                    owned = true;
                    proof {
                        assert(old_view.execs[k as int].id == ev.exec_id@);
                    }
                } else {
                    proof {
                        if exists|j: int| 0 <= j < k + 1 && old_view.execs[j].box_id == box_id@ && #[trigger] old_view.execs[j].id == ev.exec_id@ {
                            let j = choose|j: int| 0 <= j < k + 1 && old_view.execs[j].box_id == box_id@ && #[trigger] old_view.execs[j].id == ev.exec_id@;
                            assert(j != k);
                        }
                    }
                }
                k = k + 1;
            }
            proof {
                lemma_keep_take_succ(old_view.events, pe, i as int);
                assert(old_view.events[i as int] == ev@);
                assert(pe(ev@) == !owned);
            }
            if !owned {
                let ghost before = new_events@;
                new_events.push(ev.duplicate());
                proof {
                    assert(event_views(new_events@) =~= event_views(before).push(ev@));
                }
            }
            i = i + 1;
        }
        proof {
            assert(old_view.events.take(self.events@.len() as int) =~= old_view.events);
        }
        // The box's executions.
        let ghost px = |e: ExecRowView| e.box_id != box_id@;
        let mut new_execs: Vec<ExecRow> = Vec::new();
        let mut i: usize = 0;
        while i < self.execs.len()
            invariant
                i <= self.execs@.len(),
                self@ == old_view,
                exec_views(new_execs@) == keep(old_view.execs.take(i as int), px),
                px == (|e: ExecRowView| e.box_id != box_id@),
            decreases self.execs@.len() - i,
        {
            let e = &self.execs[i];
            proof {
                lemma_keep_take_succ(old_view.execs, px, i as int);
                assert(old_view.execs[i as int] == e@);
            }
            if !str_eq(e.box_id.as_str(), box_id) {
                let ghost before = new_execs@;
                new_execs.push(e.duplicate());
                proof {
                    assert(exec_views(new_execs@) =~= exec_views(before).push(e@));
                }
            }
            i = i + 1;
        }
        proof {
            assert(old_view.execs.take(self.execs@.len() as int) =~= old_view.execs);
        }
        // The box itself.
        let ghost pb = box_id_other_than(box_id@);
        let mut new_boxes: Vec<BoxRow> = Vec::new();
        let mut i: usize = 0;
        while i < self.boxes.len()
            invariant
                i <= self.boxes@.len(),
                self@ == old_view,
                box_views(new_boxes@) == keep(old_view.boxes.take(i as int), pb),
                pb == box_id_other_than(box_id@),
            decreases self.boxes@.len() - i,
        {
            let b = &self.boxes[i];
            proof {
                lemma_keep_take_succ(old_view.boxes, pb, i as int);
                assert(old_view.boxes[i as int] == b@);
            }
            if !str_eq(b.id.as_str(), box_id) {
                let ghost before = new_boxes@;
                new_boxes.push(b.duplicate());
                proof {
                    assert(box_views(new_boxes@) =~= box_views(before).push(b@));
                }
            }
            i = i + 1;
        }
        proof {
            assert(old_view.boxes.take(self.boxes@.len() as int) =~= old_view.boxes);
        }
        self.events = new_events;
        self.execs = new_execs;
        self.boxes = new_boxes;
        Ok(())
    }

    // -- Execs ------------------------------------------------------------

    /// Inserts an execution in the "running" status, created at `created_at`.
    pub fn create_exec_at(
        &mut self,
        exec_id: &str,
        box_id: &str,
        cmd: &[String],
        env: &Option<HashMap<String, String>>,
        workdir: Option<&str>,
        timeout_ms: Option<i64>,
        created_at: &str,
    ) -> (r: Result<ExecRow, String>)
        ensures
            match create_exec_conflict(old(self)@, exec_id@, box_id@) {
                Some(m) => (r matches Err(e) && e@ == m && final(self)@ == old(self)@),
                None => r matches Ok(row)
                    && row@ == new_exec_row(exec_id@, box_id@, cmd@, env_view(*env), opt_str_view(workdir), timeout_ms, created_at@)
                    && final(self)@ == old(self)@.with_execs(old(self)@.execs.push(row@)),
            },
    {
        if self.find_exec(exec_id).is_some() {
            return Err("UNIQUE constraint failed: execs.id".to_owned());
        }
        if self.find_box_by_id(box_id).is_none() {
            return Err("FOREIGN KEY constraint failed".to_owned());
        }
        let row = ExecRow {
            id: exec_id.to_owned(),
            box_id: box_id.to_owned(),
            status: "running".to_owned(),
            cmd: duplicate_strings(cmd),
            env: duplicate_env(env),
            workdir: owned_opt(workdir),
            timeout_ms,
            exit_code: None,
            error_message: None,
            created_at: created_at.to_owned(),
            finished_at: None,
        };
        let out = row.duplicate();
        let ghost old_execs = self.execs@;
        proof {
            use_type_invariant(&*self);
        }
        let mut execs: Vec<ExecRow> = Vec::new();
        std::mem::swap(&mut execs, &mut self.execs);
        execs.push(row);
        self.execs = execs;
        proof {
            assert(exec_views(self.execs@) =~= exec_views(old_execs).push(out@));
        }
        Ok(out)
    }

    /// Inserts an execution in the "running" status, created now.
    pub fn create_exec(
        &mut self,
        exec_id: &str,
        box_id: &str,
        cmd: &[String],
        env: &Option<HashMap<String, String>>,
        workdir: Option<&str>,
        timeout_ms: Option<i64>,
    ) -> (r: Result<ExecRow, String>)
        ensures
            match create_exec_conflict(old(self)@, exec_id@, box_id@) {
                Some(m) => (r matches Err(e) && e@ == m && final(self)@ == old(self)@),
                None => r matches Ok(row)
                    && row@ == new_exec_row(exec_id@, box_id@, cmd@, env_view(*env), opt_str_view(workdir), timeout_ms, row.created_at@)
                    && final(self)@ == old(self)@.with_execs(old(self)@.execs.push(row@)),
            },
    {
        let ts = now_rfc3339();
        self.create_exec_at(exec_id, box_id, cmd, env, workdir, timeout_ms, ts.as_str())
    }

    /// The execution with an id.
    pub fn get_exec(&self, exec_id: &str) -> (r: Result<Option<ExecRow>, String>)
        ensures
            r matches Ok(o) && opt_exec_view(o) == exec_by_id(self@.execs, exec_id@),
    {
        match self.find_exec(exec_id) {
            Some(i) => Ok(Some(self.execs[i].duplicate())),
            None => Ok(None),
        }
    }

    /// Marks an execution finished at `finished_at`, with its exit code
    /// and error message; the status is "failed" when there is an error
    /// message, "succeeded" for exit code 0, "failed" otherwise.
    pub fn finish_exec_at(&mut self, exec_id: &str, exit_code: i64, error_message: Option<&str>, finished_at: &str) -> (r: Result<ExecRow, String>)
        ensures
            final(self)@ == old(self)@.with_execs(finish_execs(old(self)@.execs, exec_id@, exit_code, opt_str_view(error_message), finished_at@)),
            match exec_by_id(final(self)@.execs, exec_id@) {
                Some(row) => (r matches Ok(e) && e@ == row),
                None => (r matches Err(m) && m@ == "Exec '"@ + exec_id@ + "' not found"@),
            },
    {
        proof {
            use_type_invariant(&*self);
        }
        let ghost old_view = self@;
        let ghost f = |r: ExecRowView| if r.id == exec_id@ {
            ExecRowView {
                status: finished_status(exit_code, opt_str_view(error_message)),
                exit_code: Some(exit_code),
                error_message: opt_str_view(error_message),
                finished_at: Some(finished_at@),
                ..r
            }
        } else {
            r
        };
        let mut out: Vec<ExecRow> = Vec::new();
        let mut i: usize = 0;
        while i < self.execs.len()
            invariant
                i <= self.execs@.len(),
                self@ == old_view,
                out@.len() == i,
                forall|j: int| 0 <= j < i ==> (#[trigger] out@[j])@ == f(old_view.execs[j]),
                f == (|r: ExecRowView| if r.id == exec_id@ {
                    ExecRowView {
                        status: finished_status(exit_code, opt_str_view(error_message)),
                        exit_code: Some(exit_code),
                        error_message: opt_str_view(error_message),
                        finished_at: Some(finished_at@),
                        ..r
                    }
                } else {
                    r
                }),
            decreases self.execs@.len() - i,
        {
            let e = &self.execs[i];
            proof {
                assert(old_view.execs[i as int] == e@);
            }
            if str_eq(e.id.as_str(), exec_id) {
                let status = if error_message.is_some() {
                    "failed".to_owned()
                } else if exit_code == 0 {
                    "succeeded".to_owned()
                } else {
                    "failed".to_owned()
                };
                let mut row = e.duplicate();
                row.status = status;
                row.exit_code = Some(exit_code);
                row.error_message = owned_opt(error_message);
                row.finished_at = Some(finished_at.to_owned());
                out.push(row);
            } else {
                out.push(e.duplicate());
            }
            i = i + 1;
        }
        proof {
            assert(exec_views(out@) =~= finish_execs(old_view.execs, exec_id@, exit_code, opt_str_view(error_message), finished_at@));
        }
        self.execs = out;
        match self.find_exec(exec_id) {
            Some(k) => Ok(self.execs[k].duplicate()),
            None => Err(join3("Exec '", exec_id, "' not found")),
        }
    }

    /// Marks an execution finished now.
    pub fn finish_exec(&mut self, exec_id: &str, exit_code: i64, error_message: Option<&str>) -> (r: Result<ExecRow, String>)
        ensures
            exists|ts: Seq<char>| {
                &&& final(self)@ == old(self)@.with_execs(finish_execs(old(self)@.execs, exec_id@, exit_code, opt_str_view(error_message), ts))
                &&& match exec_by_id(final(self)@.execs, exec_id@) {
                    Some(row) => (r matches Ok(e) && e@ == row),
                    None => (r matches Err(m) && m@ == "Exec '"@ + exec_id@ + "' not found"@),
                }
            },
    {
        let ts = now_rfc3339();
        self.finish_exec_at(exec_id, exit_code, error_message, ts.as_str())
    }

    /// Marks an execution canceled at `finished_at`.
    pub fn cancel_exec_at(&mut self, exec_id: &str, finished_at: &str) -> (r: Result<ExecRow, String>)
        ensures
            final(self)@ == old(self)@.with_execs(cancel_execs(old(self)@.execs, exec_id@, finished_at@)),
            match exec_by_id(final(self)@.execs, exec_id@) {
                Some(row) => (r matches Ok(e) && e@ == row),
                None => (r matches Err(m) && m@ == "Exec '"@ + exec_id@ + "' not found"@),
            },
    {
        proof {
            use_type_invariant(&*self);
        }
        let ghost old_view = self@;
        let ghost f = |r: ExecRowView| if r.id == exec_id@ {
            ExecRowView { status: "canceled"@, finished_at: Some(finished_at@), ..r }
        } else {
            r
        };
        let mut out: Vec<ExecRow> = Vec::new();
        let mut i: usize = 0;
        while i < self.execs.len()
            invariant
                i <= self.execs@.len(),
                self@ == old_view,
                out@.len() == i,
                forall|j: int| 0 <= j < i ==> (#[trigger] out@[j])@ == f(old_view.execs[j]),
                f == (|r: ExecRowView| if r.id == exec_id@ {
                    ExecRowView { status: "canceled"@, finished_at: Some(finished_at@), ..r }
                } else {
                    r
                }),
            decreases self.execs@.len() - i,
        {
            let e = &self.execs[i];
            proof {
                assert(old_view.execs[i as int] == e@);
            }
            if str_eq(e.id.as_str(), exec_id) {
                let mut row = e.duplicate();
                row.status = "canceled".to_owned();
                row.finished_at = Some(finished_at.to_owned());
                out.push(row);
            } else {
                out.push(e.duplicate());
            }
            i = i + 1;
        }
        proof {
            assert(exec_views(out@) =~= cancel_execs(old_view.execs, exec_id@, finished_at@));
        }
        self.execs = out;
        match self.find_exec(exec_id) {
            Some(k) => Ok(self.execs[k].duplicate()),
            None => Err(join3("Exec '", exec_id, "' not found")),
        }
    }

    /// Marks an execution canceled now.
    pub fn cancel_exec(&mut self, exec_id: &str) -> (r: Result<ExecRow, String>)
        ensures
            exists|ts: Seq<char>| {
                &&& final(self)@ == old(self)@.with_execs(cancel_execs(old(self)@.execs, exec_id@, ts))
                &&& match exec_by_id(final(self)@.execs, exec_id@) {
                    Some(row) => (r matches Ok(e) && e@ == row),
                    None => (r matches Err(m) && m@ == "Exec '"@ + exec_id@ + "' not found"@),
                }
            },
    {
        let ts = now_rfc3339();
        self.cancel_exec_at(exec_id, ts.as_str())
    }

    // -- Events -----------------------------------------------------------

    /// Appends an output event of an execution, created at `created_at`,
    /// under the next event identifier; once the identifiers are used up
    /// the store is full.
    pub fn append_event_at(
        &mut self,
        exec_id: &str,
        seq: i64,
        event_type: &str,
        data: &str,
        stream: Option<&str>,
        created_at: &str,
    ) -> (r: Result<(), String>)
        ensures
            if old(self)@.last_event_id == i64::MAX {
                r matches Err(m) && m@ == "database or disk is full"@ && final(self)@ == old(self)@
            } else {
                r is Ok && final(self)@ == with_event(old(self)@, exec_id@, seq, event_type@, data@, opt_str_view(stream), created_at@)
            },
    {
        if self.last_event_id == i64::MAX {
            return Err("database or disk is full".to_owned());
        }
        let id = self.last_event_id + 1;
        let row = EventRow {
            id,
            exec_id: exec_id.to_owned(),
            seq,
            event_type: event_type.to_owned(),
            stream: owned_opt(stream),
            data: data.to_owned(),
            created_at: created_at.to_owned(),
        };
        let ghost old_events = self.events@;
        let ghost rv = row@;
        proof {
            use_type_invariant(&*self);
        }
        let mut events: Vec<EventRow> = Vec::new();
        std::mem::swap(&mut events, &mut self.events);
        events.push(row);
        self.events = events;
        self.last_event_id = id;
        proof {
            assert(event_views(self.events@) =~= event_views(old_events).push(rv));
        }
        Ok(())
    }

    /// Puts back an event under the identifier it had, as a table with an
    /// increasing identifier takes a row with its identifier given: refused
    /// when an event has that identifier, else added, the last identifier
    /// becoming the greater of the two.
    pub fn restore_event_at(&mut self, event: &EventRow) -> (r: Result<(), String>)
        ensures
            if exists|k: int| 0 <= k < old(self)@.events.len() && (#[trigger] old(self)@.events[k]).id == event.id {
                r matches Err(m) && m@ == "UNIQUE constraint failed: events.id"@ && final(self)@ == old(self)@
            } else {
                r is Ok && final(self)@ == with_restored_event(old(self)@, event@)
            },
    {
        let mut i: usize = 0;
        while i < self.events.len()
            invariant
                i <= self.events@.len(),
                forall|k: int| 0 <= k < i ==> (#[trigger] self@.events[k]).id != event.id,
            decreases self.events@.len() - i,
        {
            proof {
                assert(self@.events[i as int] == self.events@[i as int]@);
            }
            if self.events[i].id == event.id {
                return Err("UNIQUE constraint failed: events.id".to_owned());
            }
            i = i + 1;
        }
        let ghost old_events = self.events@;
        let row = event.duplicate();
        proof {
            use_type_invariant(&*self);
        }
        let mut events: Vec<EventRow> = Vec::new();
        std::mem::swap(&mut events, &mut self.events);
        events.push(row);
        self.events = events;
        if event.id > self.last_event_id {
            self.last_event_id = event.id;
        }
        proof {
            assert(event_views(self.events@) =~= event_views(old_events).push(event@));
        }
        Ok(())
    }

    /// Raises the last event identifier to one that was used before, so
    /// that later events are numbered after it.
    pub fn resume_event_ids(&mut self, last: i64)
        ensures
            final(self)@ == (StoreView {
                last_event_id: if last > old(self)@.last_event_id { last } else { old(self)@.last_event_id },
                ..old(self)@
            }),
    {
        proof {
            use_type_invariant(&*self);
        }
        if last > self.last_event_id {
            self.last_event_id = last;
        }
    }

    /// Appends an output event of an execution, created now.
    pub fn append_event(
        &mut self,
        exec_id: &str,
        seq: i64,
        event_type: &str,
        data: &str,
        stream: Option<&str>,
    ) -> (r: Result<(), String>)
        ensures
            if old(self)@.last_event_id == i64::MAX {
                r matches Err(m) && m@ == "database or disk is full"@ && final(self)@ == old(self)@
            } else {
                r is Ok && exists|ts: Seq<char>| final(self)@ == with_event(old(self)@, exec_id@, seq, event_type@, data@, opt_str_view(stream), ts)
            },
    {
        let ts = now_rfc3339();
        self.append_event_at(exec_id, seq, event_type, data, stream, ts.as_str())
    }
}


/// No two boxes share an id.
pub open spec fn ids_unique(boxes: Seq<BoxRowView>) -> bool {
    forall|i: int, j: int|
        0 <= i < boxes.len() && 0 <= j < boxes.len() && i != j ==> #[trigger] boxes[i].id != #[trigger] boxes[j].id
}

/// An update never changes a box's id.
pub proof fn lemma_apply_updates_id(r: BoxRowView, ups: Seq<(Seq<char>, BoxValueView)>)
    ensures
        apply_updates(r, ups).id == r.id,
    decreases ups.len(),
{
    if ups.len() > 0 {
        lemma_apply_updates_id(set_column(r, ups[0].0, ups[0].1), ups.drop_first());
    }
}

/// Removing boxes keeps ids unique.
pub proof fn lemma_unique_without(boxes: Seq<BoxRowView>, x: Seq<char>)
    requires
        ids_unique(boxes),
    ensures
        ids_unique(keep(boxes, box_id_other_than(x))),
    decreases boxes.len(),
{
    if boxes.len() > 0 {
        let p = box_id_other_than(x);
        let n = boxes.len() - 1;
        let d = boxes.drop_last();
        assert(boxes.last() == boxes[n]);
        assert(ids_unique(d)) by {
            assert forall|a: int, b: int| 0 <= a < d.len() && 0 <= b < d.len() && a != b implies #[trigger] d[a].id != #[trigger] d[b].id by {
                assert(d[a] == boxes[a] && d[b] == boxes[b]);
            }
        }
        lemma_unique_without(d, x);
        let wd = keep(d, box_id_other_than(x));
        if p(boxes.last()) {
            lemma_keep_elements(d, p);
            let w = wd.push(boxes.last());
            assert forall|a: int, b: int| 0 <= a < w.len() && 0 <= b < w.len() && a != b implies #[trigger] w[a].id != #[trigger] w[b].id by {
                if a == wd.len() || b == wd.len() {
                    let c = if a == wd.len() { b } else { a };
                    assert(d.contains(wd[c]));
                    let j = choose|j: int| 0 <= j < d.len() && d[j] == wd[c];
                    assert(boxes[j].id != boxes[n].id);
                    assert(w[c] == wd[c]);
                } else {
                    assert(w[a] == wd[a] && w[b] == wd[b]);
                }
            }
        }
    }
}

/// Inserting a box under an id and name that no box has keeps ids unique.
pub proof fn lemma_unique_push(boxes: Seq<BoxRowView>, row: BoxRowView, name: Option<Seq<char>>)
    requires
        ids_unique(boxes),
        create_box_conflict(boxes, row.id, name) is None,
    ensures
        ids_unique(boxes.push(row)),
{
    let pushed = boxes.push(row);
    let i = boxes.len() as int;
    lemma_first_index(boxes, box_has_id(row.id));
    assert forall|a: int, b: int| 0 <= a < pushed.len() && 0 <= b < pushed.len() && a != b
        implies #[trigger] pushed[a].id != #[trigger] pushed[b].id by {
        if a < i && b < i {
            assert(pushed[a] == boxes[a] && pushed[b] == boxes[b]);
        } else if a < i {
            assert(pushed[a] == boxes[a]);
            assert(!box_has_id(row.id)(boxes[a]));
        } else {
            assert(pushed[b] == boxes[b]);
            assert(!box_has_id(row.id)(boxes[b]));
        }
    }
}

/// Updating boxes keeps ids unique.
pub proof fn lemma_unique_updated(boxes: Seq<BoxRowView>, id: Seq<char>, ups: Seq<(Seq<char>, BoxValueView)>)
    requires
        ids_unique(boxes),
    ensures
        ids_unique(updated_boxes(boxes, id, ups)),
{
    let u = updated_boxes(boxes, id, ups);
    assert forall|k: int| 0 <= k < boxes.len() implies (#[trigger] u[k]).id == boxes[k].id by {
        lemma_apply_updates_id(boxes[k], ups);
    }
    assert forall|a: int, b: int| 0 <= a < u.len() && 0 <= b < u.len() && a != b
        implies #[trigger] u[a].id != #[trigger] u[b].id by {
        assert(u[a].id == boxes[a].id && u[b].id == boxes[b].id);
    }
}

/// The columns that an update may set.
pub open spec fn is_box_column(c: Seq<char>) -> bool {
    c == "status"@ || c == "image"@ || c == "cpu"@ || c == "memory_mb"@ || c == "disk_size_gb"@
        || c == "network"@ || c == "workdir"@ || c == "env"@ || c == "volumes"@ || c == "boxlite_id"@
        || c == "error_code"@ || c == "error_message"@ || c == "started_at"@ || c == "stopped_at"@
}

pub open spec fn is_required_text_column(c: Seq<char>) -> bool {
    c == "status"@ || c == "image"@ || c == "workdir"@
}

pub open spec fn is_int_column(c: Seq<char>) -> bool {
    c == "cpu"@ || c == "memory_mb"@ || c == "disk_size_gb"@
}

/// Whether a value is written as SQL `NULL`.
pub open spec fn is_null_value(v: BoxValueView) -> bool {
    match v {
        BoxValueView::Null => true,
        BoxValueView::Env(None) => true,
        BoxValueView::Volumes(None) => true,
        _ => false,
    }
}

/// Which values the store cannot hold in a column: a map or a list in a
/// text or numeric column, a text in the `volumes` column, and a text that
/// is not a decimal `i64` in a numeric column. (A text in the `env` column
/// is read as a JSON map of texts.)
pub open spec fn value_problem(col: Seq<char>, v: BoxValueView) -> Option<Seq<char>> {
    let invalid = "Invalid value for column: "@ + col;
    if is_int_column(col) || col == "network"@ {
        match v {
            BoxValueView::Text(t) => if parsed_i64(t) is Some { None } else { Some(invalid) },
            BoxValueView::Env(Some(_)) => Some(invalid),
            BoxValueView::Volumes(Some(_)) => Some(invalid),
            _ => None,
        }
    } else if col == "env"@ {
        None
    } else if col == "volumes"@ {
        match v {
            BoxValueView::Text(_) => Some(invalid),
            _ => None,
        }
    } else {
        match v {
            BoxValueView::Env(Some(_)) => Some(invalid),
            BoxValueView::Volumes(Some(_)) => Some(invalid),
            _ => None,
        }
    }
}

/// The value that the last update of a column gives it, if any update
/// names the column.
pub open spec fn last_value(updates: Seq<(Seq<char>, BoxValueView)>, col: Seq<char>) -> Option<BoxValueView>
    decreases updates.len(),
{
    if updates.len() == 0 {
        None
    } else if updates.last().0 == col {
        Some(updates.last().1)
    } else {
        last_value(updates.drop_last(), col)
    }
}

/// Whether the updates leave a column `NULL`.
pub open spec fn nulled(updates: Seq<(Seq<char>, BoxValueView)>, col: Seq<char>) -> bool {
    match last_value(updates, col) {
        Some(v) => is_null_value(v),
        None => false,
    }
}

pub open spec fn not_null_message(col: Seq<char>) -> Seq<char> {
    "NOT NULL constraint failed: boxes."@ + col
}

/// The first column, in the order of the table, that must not be `NULL`
/// and that the updates leave `NULL`.
pub open spec fn not_null_problem(updates: Seq<(Seq<char>, BoxValueView)>) -> Option<Seq<char>> {
    if nulled(updates, "status"@) { Some(not_null_message("status"@)) }
    else if nulled(updates, "image"@) { Some(not_null_message("image"@)) }
    else if nulled(updates, "cpu"@) { Some(not_null_message("cpu"@)) }
    else if nulled(updates, "memory_mb"@) { Some(not_null_message("memory_mb"@)) }
    else if nulled(updates, "disk_size_gb"@) { Some(not_null_message("disk_size_gb"@)) }
    else if nulled(updates, "network"@) { Some(not_null_message("network"@)) }
    else if nulled(updates, "workdir"@) { Some(not_null_message("workdir"@)) }
    else { None }
}

/// Whether a column must not be `NULL`.
pub open spec fn is_not_null_column(c: Seq<char>) -> bool {
    is_required_text_column(c) || is_int_column(c) || c == "network"@
}

proof fn lemma_not_nulled(u: Seq<(Seq<char>, BoxValueView)>, c: Seq<char>)
    requires
        forall|k: int| 0 <= k < u.len() && (#[trigger] u[k]).0 == c ==> !is_null_value(u[k].1),
    ensures
        !nulled(u, c),
    decreases u.len(),
{
    if u.len() > 0 && u.last().0 != c {
        let d = u.drop_last();
        assert forall|k: int| 0 <= k < d.len() && (#[trigger] d[k]).0 == c implies !is_null_value(d[k].1) by {
            assert(d[k] == u[k]);
        }
        lemma_not_nulled(d, c);
    }
}

/// Updates that give no required column a `NULL` leave none `NULL`.
pub proof fn lemma_no_null_left(u: Seq<(Seq<char>, BoxValueView)>)
    requires
        forall|k: int| 0 <= k < u.len() && is_not_null_column((#[trigger] u[k]).0) ==> !is_null_value(u[k].1),
    ensures
        not_null_problem(u) is None,
{
    lemma_not_nulled(u, "status"@);
    lemma_not_nulled(u, "image"@);
    lemma_not_nulled(u, "cpu"@);
    lemma_not_nulled(u, "memory_mb"@);
    lemma_not_nulled(u, "disk_size_gb"@);
    lemma_not_nulled(u, "network"@);
    lemma_not_nulled(u, "workdir"@);
}

/// The text that a value becomes in a text column: an integer is written
/// in decimal and a flag as `1` or `0`; `NULL` leaves no text.
pub open spec fn stored_text(v: BoxValueView) -> Option<Seq<char>> {
    match v {
        BoxValueView::Text(t) => Some(t),
        BoxValueView::Int(i) => Some(int_text(i as int)),
        BoxValueView::Bool(b) => Some(if b { "1"@ } else { "0"@ }),
        _ => None,
    }
}

/// The integer that a value becomes in a numeric column: a flag is `1`
/// or `0`, and a decimal text is read as its number.
pub open spec fn int_of(v: BoxValueView) -> i64 {
    match v {
        BoxValueView::Int(i) => i,
        BoxValueView::Bool(b) => if b { 1 } else { 0 },
        BoxValueView::Text(t) => match parsed_i64(t) {
            Some(n) => n as i64,
            None => 0,
        },
        _ => 0,
    }
}

/// The flag that a value gives: whether its integer is not zero.
pub open spec fn flag_of(v: BoxValueView) -> bool {
    int_of(v) != 0
}

pub open spec fn text_of(v: BoxValueView) -> Seq<char> {
    match stored_text(v) {
        Some(t) => t,
        None => Seq::empty(),
    }
}

pub open spec fn opt_text_of(v: BoxValueView) -> Option<Seq<char>> {
    stored_text(v)
}

/// A row with one column set to a value, converted to the column's kind.
pub open spec fn set_column(r: BoxRowView, col: Seq<char>, v: BoxValueView) -> BoxRowView {
    if col == "status"@ { BoxRowView { status: text_of(v), ..r } }
    else if col == "image"@ { BoxRowView { image: text_of(v), ..r } }
    else if col == "workdir"@ { BoxRowView { workdir: text_of(v), ..r } }
    else if col == "cpu"@ { BoxRowView { cpu: int_of(v), ..r } }
    else if col == "memory_mb"@ { BoxRowView { memory_mb: int_of(v), ..r } }
    else if col == "disk_size_gb"@ { BoxRowView { disk_size_gb: int_of(v), ..r } }
    else if col == "network"@ { BoxRowView { network: flag_of(v), ..r } }
    else if col == "env"@ {
        BoxRowView { env: match v { BoxValueView::Env(e) => e, BoxValueView::Text(t) => env_json(t), _ => None }, ..r }
    } else if col == "volumes"@ {
        BoxRowView { volumes: match v { BoxValueView::Volumes(l) => l, _ => None }, ..r }
    } else if col == "boxlite_id"@ { BoxRowView { boxlite_id: opt_text_of(v), ..r } }
    else if col == "error_code"@ { BoxRowView { error_code: opt_text_of(v), ..r } }
    else if col == "error_message"@ { BoxRowView { error_message: opt_text_of(v), ..r } }
    else if col == "started_at"@ { BoxRowView { started_at: opt_text_of(v), ..r } }
    else if col == "stopped_at"@ { BoxRowView { stopped_at: opt_text_of(v), ..r } }
    else { r }
}

/// A row with each update applied in turn; a later update of the same
/// column wins.
pub open spec fn apply_updates(r: BoxRowView, updates: Seq<(Seq<char>, BoxValueView)>) -> BoxRowView
    decreases updates.len(),
{
    if updates.len() == 0 {
        r
    } else {
        apply_updates(set_column(r, updates[0].0, updates[0].1), updates.drop_first())
    }
}

/// The first column of the updates that no box has.
pub open spec fn first_bad_column(updates: Seq<(Seq<char>, BoxValueView)>) -> Option<Seq<char>>
    decreases updates.len(),
{
    if updates.len() == 0 {
        None
    } else if !is_box_column(updates[0].0) {
        Some(updates[0].0)
    } else {
        first_bad_column(updates.drop_first())
    }
}

/// The first problem among the values of the updates.
pub open spec fn first_value_problem(updates: Seq<(Seq<char>, BoxValueView)>) -> Option<Seq<char>>
    decreases updates.len(),
{
    if updates.len() == 0 {
        None
    } else {
        match value_problem(updates[0].0, updates[0].1) {
            Some(m) => Some(m),
            None => first_value_problem(updates.drop_first()),
        }
    }
}

/// Why a list of updates is refused, if it is: first any unknown column,
/// then any value that does not suit its column.
pub open spec fn update_problem(updates: Seq<(Seq<char>, BoxValueView)>) -> Option<Seq<char>> {
    match first_bad_column(updates) {
        Some(c) => Some("Invalid column: "@ + c),
        None => first_value_problem(updates),
    }
}

/// The contents of update pairs.
pub open spec fn updates_view(u: Seq<(&str, BoxValue)>) -> Seq<(Seq<char>, BoxValueView)> {
    u.map_values(|p: (&str, BoxValue)| (p.0@, p.1@))
}

/// The boxes after the updates are applied to the boxes with an id.
pub open spec fn updated_boxes(boxes: Seq<BoxRowView>, id: Seq<char>, updates: Seq<(Seq<char>, BoxValueView)>) -> Seq<BoxRowView> {
    boxes.map_values(|r: BoxRowView| if r.id == id { apply_updates(r, updates) } else { r })
}

/// Whether a column name is one that updates may set.
pub fn box_column_known(c: &str) -> (r: bool)
    ensures
        r == is_box_column(c@),
{
    str_eq(c, "status") || str_eq(c, "image") || str_eq(c, "cpu") || str_eq(c, "memory_mb")
        || str_eq(c, "disk_size_gb") || str_eq(c, "network") || str_eq(c, "workdir") || str_eq(c, "env")
        || str_eq(c, "volumes") || str_eq(c, "boxlite_id") || str_eq(c, "error_code")
        || str_eq(c, "error_message") || str_eq(c, "started_at") || str_eq(c, "stopped_at")
}

fn check_value(col: &str, v: &BoxValue) -> (r: Option<String>)
    requires
        is_box_column(col@),
    ensures
        opt_view(r) == value_problem(col@, v@),
{
    let numeric = str_eq(col, "cpu") || str_eq(col, "memory_mb") || str_eq(col, "disk_size_gb") || str_eq(col, "network");
    if numeric {
        match v {
            BoxValue::Text(t) => match parse_i64(t.as_str()) {
                Some(_) => None,
                None => Some(join2("Invalid value for column: ", col)),
            },
            BoxValue::Env(Some(_)) | BoxValue::Volumes(Some(_)) => Some(join2("Invalid value for column: ", col)),
            _ => None,
        }
    } else if str_eq(col, "env") {
        None
    } else if str_eq(col, "volumes") {
        match v {
            BoxValue::Text(_) => Some(join2("Invalid value for column: ", col)),
            _ => None,
        }
    } else {
        match v {
            BoxValue::Env(Some(_)) | BoxValue::Volumes(Some(_)) => Some(join2("Invalid value for column: ", col)),
            _ => None,
        }
    }
}

fn value_is_null(v: &BoxValue) -> (r: bool)
    ensures
        r == is_null_value(v@),
{
    match v {
        BoxValue::Null => true,
        BoxValue::Env(None) => true,
        BoxValue::Volumes(None) => true,
        _ => false,
    }
}

/// Whether the last update of a column, if any, leaves it `NULL`.
fn leaves_null(updates: &[(&str, BoxValue)], col: &str) -> (r: bool)
    ensures
        r == nulled(updates_view(updates@), col@),
{
    let ghost uv = updates_view(updates@);
    let mut i: usize = updates.len();
    proof {
        assert(uv.subrange(0, i as int) =~= uv);
    }
    while i > 0
        invariant
            i <= updates@.len(),
            uv == updates_view(updates@),
            last_value(uv, col@) == last_value(uv.subrange(0, i as int), col@),
        decreases i,
    {
        let k = i - 1;
        proof {
            let pre = uv.subrange(0, i as int);
            assert(pre.last() == uv[k as int]);
            assert(pre.drop_last() =~= uv.subrange(0, k as int));
            assert(uv[k as int] == (updates@[k as int].0@, updates@[k as int].1@));
        }
        if str_eq(updates[k].0, col) {
            return value_is_null(&updates[k].1);
        }
        i = k;
    }
    false
}

fn not_null_check(updates: &[(&str, BoxValue)]) -> (r: Option<String>)
    ensures
        opt_view(r) == not_null_problem(updates_view(updates@)),
{
    let prefix = "NOT NULL constraint failed: boxes.";
    if leaves_null(updates, "status") { Some(join2(prefix, "status")) }
    else if leaves_null(updates, "image") { Some(join2(prefix, "image")) }
    else if leaves_null(updates, "cpu") { Some(join2(prefix, "cpu")) }
    else if leaves_null(updates, "memory_mb") { Some(join2(prefix, "memory_mb")) }
    else if leaves_null(updates, "disk_size_gb") { Some(join2(prefix, "disk_size_gb")) }
    else if leaves_null(updates, "network") { Some(join2(prefix, "network")) }
    else if leaves_null(updates, "workdir") { Some(join2(prefix, "workdir")) }
    else { None }
}

fn value_int(v: &BoxValue) -> (r: i64)
    ensures
        r == int_of(v@),
{
    match v {
        BoxValue::Int(i) => *i,
        BoxValue::Bool(b) => if *b { 1 } else { 0 },
        BoxValue::Text(t) => match parse_i64(t.as_str()) {
            Some(n) => n,
            None => 0,
        },
        _ => 0,
    }
}

fn value_flag(v: &BoxValue) -> (r: bool)
    ensures
        r == flag_of(v@),
{
    value_int(v) != 0
}

fn value_opt_text(v: &BoxValue) -> (r: Option<String>)
    ensures
        opt_view(r) == opt_text_of(v@),
{
    match v {
        BoxValue::Text(t) => Some(t.clone()),
        BoxValue::Int(i) => Some(i64_to_text(*i)),
        BoxValue::Bool(b) => {
            proof {
                reveal_strlit("1");
                reveal_strlit("0");
            }
            Some(String::from_str(if *b { "1" } else { "0" }))
        },
        _ => None,
    }
}

fn value_text(v: &BoxValue) -> (r: String)
    ensures
        r@ == text_of(v@),
{
    match value_opt_text(v) {
        Some(t) => t,
        None => String::new(),
    }
}

fn set_column_in(row: &mut BoxRow, col: &str, v: &BoxValue)
    ensures
        final(row)@ == set_column(old(row)@, col@, v@),
{
    if str_eq(col, "status") { row.status = value_text(v); }
    else if str_eq(col, "image") { row.image = value_text(v); }
    else if str_eq(col, "workdir") { row.workdir = value_text(v); }
    else if str_eq(col, "cpu") { row.cpu = value_int(v); }
    else if str_eq(col, "memory_mb") { row.memory_mb = value_int(v); }
    else if str_eq(col, "disk_size_gb") { row.disk_size_gb = value_int(v); }
    else if str_eq(col, "network") { row.network = value_flag(v); }
    else if str_eq(col, "env") {
        row.env = match v { BoxValue::Env(e) => duplicate_env(e), BoxValue::Text(t) => read_env_json(t.as_str()), _ => None };
    } else if str_eq(col, "volumes") {
        row.volumes = match v { BoxValue::Volumes(l) => duplicate_volumes(l), _ => None };
    } else if str_eq(col, "boxlite_id") { row.boxlite_id = value_opt_text(v); }
    else if str_eq(col, "error_code") { row.error_code = value_opt_text(v); }
    else if str_eq(col, "error_message") { row.error_message = value_opt_text(v); }
    else if str_eq(col, "started_at") { row.started_at = value_opt_text(v); }
    else if str_eq(col, "stopped_at") { row.stopped_at = value_opt_text(v); }
}

proof fn lemma_updates_view_skip(u: Seq<(&str, BoxValue)>, i: int)
    requires
        0 <= i < u.len(),
    ensures
        updates_view(u.skip(i)).len() > 0,
        updates_view(u.skip(i))[0] == (u[i].0@, u[i].1@),
        updates_view(u.skip(i)).drop_first() == updates_view(u.skip(i + 1)),
{
    assert(updates_view(u.skip(i)).drop_first() =~= updates_view(u.skip(i + 1)));
}

fn insert_box_newest_first(out: &mut Vec<BoxRow>, row: BoxRow)
    ensures
        box_views(final(out)@) == crate::seqs::insert_ordered(box_views(old(out)@), row@, box_newer_first()),
{
    let ghost before = box_views(out@);
    let mut k: usize = 0;
    while k < out.len() && !str_lt(out[k].created_at.as_str(), row.created_at.as_str())
        invariant
            k <= out@.len(),
            before == box_views(out@),
            forall|j: int| 0 <= j < k ==> !box_newer_first()(row@, #[trigger] before[j]),
        decreases out@.len() - k,
    {
        k = k + 1;
    }
    proof {
        lemma_insert_ordered_at(before, row@, box_newer_first(), k as int);
    }
    let ghost rv = row@;
    out.insert(k, row);
    proof {
        assert(box_views(out@) =~= before.insert(k as int, rv));
    }
}

fn insert_exec_newest_first(out: &mut Vec<ExecRow>, row: ExecRow)
    ensures
        exec_views(final(out)@) == crate::seqs::insert_ordered(exec_views(old(out)@), row@, exec_newer_first()),
{
    let ghost before = exec_views(out@);
    let mut k: usize = 0;
    while k < out.len() && !str_lt(out[k].created_at.as_str(), row.created_at.as_str())
        invariant
            k <= out@.len(),
            before == exec_views(out@),
            forall|j: int| 0 <= j < k ==> !exec_newer_first()(row@, #[trigger] before[j]),
        decreases out@.len() - k,
    {
        k = k + 1;
    }
    proof {
        lemma_insert_ordered_at(before, row@, exec_newer_first(), k as int);
    }
    let ghost rv = row@;
    out.insert(k, row);
    proof {
        assert(exec_views(out@) =~= before.insert(k as int, rv));
    }
}

fn insert_event_by_seq(out: &mut Vec<EventRow>, row: EventRow)
    ensures
        event_views(final(out)@) == crate::seqs::insert_ordered(event_views(old(out)@), row@, event_seq_first()),
{
    let ghost before = event_views(out@);
    let mut k: usize = 0;
    while k < out.len() && !(row.seq < out[k].seq)
        invariant
            k <= out@.len(),
            before == event_views(out@),
            forall|j: int| 0 <= j < k ==> !event_seq_first()(row@, #[trigger] before[j]),
        decreases out@.len() - k,
    {
        k = k + 1;
    }
    proof {
        lemma_insert_ordered_at(before, row@, event_seq_first(), k as int);
    }
    let ghost rv = row@;
    out.insert(k, row);
    proof {
        assert(event_views(out@) =~= before.insert(k as int, rv));
    }
}

impl Store {
    /// The boxes that pass a status filter, newest first. Without a filter,
    /// or with the filter "all", every box passes.
    pub fn list_boxes(&self, status: Option<&str>) -> (r: Result<Vec<BoxRow>, String>)
        ensures
            r matches Ok(v) && box_views(v@) == order_by(keep(self@.boxes, status_filter(opt_str_view(status))), box_newer_first()),
    {
        let ghost p = status_filter(opt_str_view(status));
        let mut out: Vec<BoxRow> = Vec::new();
        let mut i: usize = 0;
        proof {
            assert(box_views(out@) =~= Seq::empty());
            assert(keep(self@.boxes.take(0), p) =~= Seq::empty());
        }
        while i < self.boxes.len()
            invariant
                i <= self.boxes@.len(),
                self@.boxes.len() == self.boxes@.len(),
                p == status_filter(opt_str_view(status)),
                box_views(out@) == order_by(keep(self@.boxes.take(i as int), p), box_newer_first()),
            decreases self.boxes@.len() - i,
        {
            let row = &self.boxes[i];
            let pass = match status {
                None => true,
                Some(s) => str_eq(s, "all") || str_eq(row.status.as_str(), s),
            };
            proof {
                assert(self@.boxes[i as int] == row@);
                lemma_keep_take_succ(self@.boxes, p, i as int);
                lemma_order_by_push(keep(self@.boxes.take(i as int), p), row@, box_newer_first());
            }
            if pass {
                insert_box_newest_first(&mut out, row.duplicate());
            }
            i = i + 1;
        }
        proof {
            assert(self@.boxes.take(self.boxes@.len() as int) =~= self@.boxes);
        }
        Ok(out)
    }

    /// The executions of a box, newest first.
    pub fn list_execs(&self, box_id: &str) -> (r: Result<Vec<ExecRow>, String>)
        ensures
            r matches Ok(v) && exec_views(v@) == order_by(keep(self@.execs, exec_of_box(box_id@)), exec_newer_first()),
    {
        let ghost p = exec_of_box(box_id@);
        let mut out: Vec<ExecRow> = Vec::new();
        let mut i: usize = 0;
        proof {
            assert(exec_views(out@) =~= Seq::empty());
            assert(keep(self@.execs.take(0), p) =~= Seq::empty());
        }
        while i < self.execs.len()
            invariant
                i <= self.execs@.len(),
                self@.execs.len() == self.execs@.len(),
                p == exec_of_box(box_id@),
                exec_views(out@) == order_by(keep(self@.execs.take(i as int), p), exec_newer_first()),
            decreases self.execs@.len() - i,
        {
            let row = &self.execs[i];
            proof {
                assert(self@.execs[i as int] == row@);
                lemma_keep_take_succ(self@.execs, p, i as int);
                lemma_order_by_push(keep(self@.execs.take(i as int), p), row@, exec_newer_first());
            }
            if str_eq(row.box_id.as_str(), box_id) {
                insert_exec_newest_first(&mut out, row.duplicate());
            }
            i = i + 1;
        }
        proof {
            assert(self@.execs.take(self.execs@.len() as int) =~= self@.execs);
        }
        Ok(out)
    }

    /// The events of an execution from a sequence number on, by sequence number.
    pub fn get_events(&self, exec_id: &str, since_seq: i64) -> (r: Result<Vec<EventRow>, String>)
        ensures
            r matches Ok(v) && event_views(v@) == order_by(keep(self@.events, event_wanted(exec_id@, since_seq)), event_seq_first()),
    {
        let ghost p = event_wanted(exec_id@, since_seq);
        let mut out: Vec<EventRow> = Vec::new();
        let mut i: usize = 0;
        proof {
            assert(event_views(out@) =~= Seq::empty());
            assert(keep(self@.events.take(0), p) =~= Seq::empty());
        }
        while i < self.events.len()
            invariant
                i <= self.events@.len(),
                self@.events.len() == self.events@.len(),
                p == event_wanted(exec_id@, since_seq),
                event_views(out@) == order_by(keep(self@.events.take(i as int), p), event_seq_first()),
            decreases self.events@.len() - i,
        {
            let row = &self.events[i];
            proof {
                assert(self@.events[i as int] == row@);
                lemma_keep_take_succ(self@.events, p, i as int);
                lemma_order_by_push(keep(self@.events.take(i as int), p), row@, event_seq_first());
            }
            if str_eq(row.exec_id.as_str(), exec_id) && row.seq >= since_seq {
                insert_event_by_seq(&mut out, row.duplicate());
            }
            i = i + 1;
        }
        proof {
            assert(self@.events.take(self.events@.len() as int) =~= self@.events);
        }
        Ok(out)
    }

    /// The ids of the boxes that can be collected given a cutoff time, in
    /// store order.
    pub fn gc_stopped_boxes_before(&self, cutoff: &str) -> (r: Result<Vec<String>, String>)
        ensures
            r matches Ok(ids) && ids@.map_values(|s: String| s@) == keep(self@.boxes, collectable(cutoff@)).map_values(|b: BoxRowView| b.id),
    {
        let ghost p = collectable(cutoff@);
        let mut ids: Vec<String> = Vec::new();
        let mut i: usize = 0;
        proof {
            assert(keep(self@.boxes.take(0), p) =~= Seq::empty());
            assert(ids@.map_values(|s: String| s@) =~= Seq::empty());
        }
        while i < self.boxes.len()
            invariant
                i <= self.boxes@.len(),
                self@.boxes.len() == self.boxes@.len(),
                p == collectable(cutoff@),
                ids@.map_values(|s: String| s@) == keep(self@.boxes.take(i as int), p).map_values(|b: BoxRowView| b.id),
            decreases self.boxes@.len() - i,
        {
            let row = &self.boxes[i];
            let stopped_old = str_eq(row.status.as_str(), "stopped") && match &row.stopped_at {
                Some(t) => str_lt(t.as_str(), cutoff),
                None => false,
            };
            let error_old = str_eq(row.status.as_str(), "error") && str_lt(row.created_at.as_str(), cutoff);
            proof {
                assert(self@.boxes[i as int] == row@);
                lemma_keep_take_succ(self@.boxes, p, i as int);
            }
            if stopped_old || error_old {
                let ghost before = ids@;
                ids.push(row.id.clone());
                proof {
                    let k = keep(self@.boxes.take(i as int), p);
                    assert(ids@.map_values(|s: String| s@) =~= before.map_values(|s: String| s@).push(row.id@));
                    assert(k.push(row@).map_values(|b: BoxRowView| b.id) =~= k.map_values(|b: BoxRowView| b.id).push(row.id@));
                }
            }
            i = i + 1;
        }
        proof {
            assert(self@.boxes.take(self.boxes@.len() as int) =~= self@.boxes);
        }
        Ok(ids)
    }

    /// The ids of the boxes stopped, or in error, for longer than
    /// `older_than_seconds`.
    pub fn gc_stopped_boxes(&self, older_than_seconds: i64) -> (r: Result<Vec<String>, String>)
        requires
            -8_200_000_000_000 <= older_than_seconds <= 8_200_000_000_000,
        ensures
            exists|cutoff: Seq<char>| #![trigger collectable(cutoff)] r matches Ok(ids) && ids@.map_values(|s: String| s@) == keep(self@.boxes, collectable(cutoff)).map_values(|b: BoxRowView| b.id),
    {
        let cutoff = rfc3339_seconds_ago(older_than_seconds);
        self.gc_stopped_boxes_before(cutoff.as_str())
    }

    /// Sets columns of the box with an id. With no updates, answers the box
    /// that the key names by id or name. An unknown column refuses the
    /// updates as a whole. Otherwise a value is converted to its column's
    /// kind as the table's column affinities convert it (an integer or flag
    /// in a text column becomes its decimal text, a decimal text in a
    /// numeric column its number, a text in `env` the JSON map it holds,
    /// anything else in `env` or `volumes` nothing), the last update of a
    /// column wins, and when the box exists, leaving a required column
    /// `NULL` refuses the updates, naming the first such column in the
    /// order of the table.
    ///
    /// Three kinds of value are refused as a whole with "Invalid value for
    /// column", where a table would write them: a text in a numeric column
    /// that is not a decimal `i64` (a table turns some such texts, with
    /// spaces or with a fraction or exponent that gives a whole number,
    /// into that number, and keeps the others as text, after which it can
    /// no longer read the row back, which these rows of typed fields cannot
    /// hold), a map or a list in a text or numeric column (a map's JSON
    /// text depends on the order in which the map is walked), and a text
    /// in `volumes` (it would be read as JSON into the volume type).
    pub fn update_box(&mut self, box_id: &str, updates: &[(&str, BoxValue)]) -> (r: Result<BoxRow, String>)
        ensures
            updates@.len() == 0 ==> final(self)@ == old(self)@ && match lookup_box(old(self)@.boxes, box_id@) {
                Some(row) => (r matches Ok(b) && b@ == row),
                None => (r matches Err(m) && m@ == "Box '"@ + box_id@ + "' not found"@),
            },
            updates@.len() > 0 ==> match update_problem(updates_view(updates@)) {
                Some(m) => (r matches Err(e) && e@ == m && final(self)@ == old(self)@),
                None => if not_null_problem(updates_view(updates@)) is Some && box_by_id(old(self)@.boxes, box_id@) is Some {
                    r matches Err(e) && e@ == not_null_problem(updates_view(updates@))->0 && final(self)@ == old(self)@
                } else {
                    final(self)@ == old(self)@.with_boxes(updated_boxes(old(self)@.boxes, box_id@, updates_view(updates@)))
                    && match box_by_id(final(self)@.boxes, box_id@) {
                        Some(row) => (r matches Ok(b) && b@ == row),
                        None => (r matches Err(m) && m@ == "Box '"@ + box_id@ + "' not found"@),
                    }
                },
            },
            ids_unique(final(self)@.boxes),
    {
        proof {
            use_type_invariant(&*self);
        }
        proof {
            lemma_unique_updated(self@.boxes, box_id@, updates_view(updates@));
        }
        if updates.len() == 0 {
            return match self.get_box(box_id) {
                Ok(Some(row)) => Ok(row),
                _ => Err(join3("Box '", box_id, "' not found")),
            };
        }
        let ghost uv = updates_view(updates@);
        // Every column must be known.
        let mut i: usize = 0;
        proof {
            assert(uv.skip(0) =~= uv);
        }
        while i < updates.len()
            invariant
                i <= updates@.len(),
                uv == updates_view(updates@),
                forall|j: int| 0 <= j < i ==> is_box_column(#[trigger] uv[j].0),
                first_bad_column(uv) == first_bad_column(uv.skip(i as int)),
                ids_unique(self@.boxes),
            decreases updates@.len() - i,
        {
            let col = updates[i].0;
            proof {
                lemma_updates_view_skip(updates@, i as int);
                assert(uv.skip(i as int) == updates_view(updates@.skip(i as int)));
                assert(uv.skip(i + 1) =~= updates_view(updates@.skip(i + 1)));
                assert(updates_view(updates@.skip(i as int))[0].0 == col@);
                assert(uv[i as int].0 == col@);
            }
            if !box_column_known(col) {
                return Err(join2("Invalid column: ", col));
            }
            i = i + 1;
        }
        proof {
            assert(uv.skip(updates@.len() as int) =~= Seq::empty());
        }
        // Every value must suit its column.
        let mut i: usize = 0;
        proof {
            assert(uv.skip(0) =~= uv);
        }
        while i < updates.len()
            invariant
                i <= updates@.len(),
                uv == updates_view(updates@),
                forall|j: int| 0 <= j < updates@.len() ==> is_box_column(#[trigger] uv[j].0),
                first_value_problem(uv) == first_value_problem(uv.skip(i as int)),
                ids_unique(self@.boxes),
                first_bad_column(uv) is None,
            decreases updates@.len() - i,
        {
            let col = updates[i].0;
            let val = &updates[i].1;
            proof {
                lemma_updates_view_skip(updates@, i as int);
                assert(uv.skip(i as int) == updates_view(updates@.skip(i as int)));
                assert(uv.skip(i + 1) =~= updates_view(updates@.skip(i + 1)));
                assert(uv[i as int] == (col@, val@));
            }
            match check_value(col, val) {
                Some(m) => {
                    return Err(m);
                },
                None => {},
            }
            i = i + 1;
        }
        proof {
            assert(uv.skip(updates@.len() as int) =~= Seq::empty());
        }
        // A required column left NULL fails only where a row is written.
        match not_null_check(updates) {
            Some(m) => {
                if self.find_box_by_id(box_id).is_some() {
                    return Err(m);
                }
            },
            None => {},
        }
        // Apply to each box with the id.
        let ghost old_view = self@;
        let ghost f = |r: BoxRowView| if r.id == box_id@ { apply_updates(r, uv) } else { r };
        let mut out: Vec<BoxRow> = Vec::new();
        let mut i: usize = 0;
        while i < self.boxes.len()
            invariant
                i <= self.boxes@.len(),
                self@ == old_view,
                uv == updates_view(updates@),
                out@.len() == i,
                forall|j: int| 0 <= j < i ==> (#[trigger] out@[j])@ == f(old_view.boxes[j]),
                f == (|r: BoxRowView| if r.id == box_id@ { apply_updates(r, uv) } else { r }),
            decreases self.boxes@.len() - i,
        {
            let b = &self.boxes[i];
            proof {
                assert(old_view.boxes[i as int] == b@);
            }
            if str_eq(b.id.as_str(), box_id) {
                let mut row = b.duplicate();
                let mut k: usize = 0;
                proof {
                    assert(uv.skip(0) =~= uv);
                }
                while k < updates.len()
                    invariant
                        k <= updates@.len(),
                        uv == updates_view(updates@),
                        apply_updates(b@, uv) == apply_updates(row@, uv.skip(k as int)),
                    decreases updates@.len() - k,
                {
                    let col = updates[k].0;
                    let val = &updates[k].1;
                    proof {
                        lemma_updates_view_skip(updates@, k as int);
                        assert(uv.skip(k as int) == updates_view(updates@.skip(k as int)));
                        assert(uv.skip(k + 1) =~= updates_view(updates@.skip(k + 1)));
                    }
                    set_column_in(&mut row, col, val);
                    k = k + 1;
                }
                proof {
                    assert(uv.skip(updates@.len() as int) =~= Seq::empty());
                }
                out.push(row);
            } else {
                out.push(b.duplicate());
            }
            i = i + 1;
        }
        proof {
            assert(box_views(out@) =~= updated_boxes(old_view.boxes, box_id@, uv));
        }
        self.boxes = out;
        match self.find_box_by_id(box_id) {
            Some(k) => Ok(self.boxes[k].duplicate()),
            None => Err(join3("Box '", box_id, "' not found")),
        }
    }
}

} // verus!
