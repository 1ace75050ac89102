//! The logic of the SDK client: the records it hands out, how it judges a
//! server's answer, and how it reads an event of an execution's stream.
use vstd::prelude::*;
use std::collections::HashMap;
use crate::error::{BoxRunError, ErrorCode};
use crate::json::{json_members, keys_view, error_members, event_members, read_members, read_error_members, read_event_members,
    JsonFields, JsonFieldsView, text_at, int_at, text_field, int_field};
use crate::answers::{answer_doc, answer_text, answer_int, text_or, int_or, text_or_empty, int_or_zero, gc_keys};
use crate::models::opt_view;
use crate::text::{str_eq, join2, join3, nat_text, u64_to_text};

verus! {

/// An execution as the server reports it.
#[derive(Debug, Clone)]
pub struct ExecInfo {
    pub id: String,
    pub box_id: String,
    pub status: String,
    pub cmd: Vec<String>,
    pub env: Option<HashMap<String, String>>,
    pub workdir: Option<String>,
    pub timeout_ms: Option<i64>,
    pub exit_code: Option<i64>,
    pub error_message: Option<String>,
    pub created_at: String,
    pub finished_at: Option<String>,
}

/// An event of an execution's stream.
#[derive(Debug, Clone)]
pub struct ExecEvent {
    pub event_type: String,
    pub data: String,
    pub stream: Option<String>,
    pub seq: i64,
}

/// The content of a streamed event.
pub struct ExecEventView {
    pub event_type: Seq<char>,
    pub data: Seq<char>,
    pub stream: Option<Seq<char>>,
    pub seq: i64,
}

impl View for ExecEvent {
    type V = ExecEventView;

    open spec fn view(&self) -> ExecEventView {
        ExecEventView { event_type: self.event_type@, data: self.data@, stream: opt_view(self.stream), seq: self.seq }
    }
}

/// The outcome of a run in a short-lived box.
#[derive(Debug, Clone)]
pub struct RunResult {
    pub exit_code: Option<i64>,
    pub stdout: String,
    pub stderr: String,
    pub error_message: Option<String>,
}

/// The message of the error that a server's answer means, if any: a
/// refusal (status 400 or more) reports the code and message of a JSON
/// object body, defaulting to `UNKNOWN` and the body itself, or else the
/// status and the body; an accepted answer whose body is not JSON is
/// reported as such.
pub open spec fn answer_error_of(status: u16, body: Seq<char>) -> Option<Seq<char>> {
    if status >= 400 {
        match error_members(body) {
            Some((is_object, code, message)) => if is_object {
                Some("["@ + (match code { Some(c) => c, None => "UNKNOWN"@ }) + "] "@
                    + (match message { Some(m) => m, None => body }))
            } else {
                Some("HTTP "@ + nat_text(status as nat) + ": "@ + body)
            },
            None => Some("HTTP "@ + nat_text(status as nat) + ": "@ + body),
        }
    } else {
        match json_members(body, Seq::empty()) {
            Err(e) => Some("Invalid JSON: "@ + e),
            Ok(_) => None,
        }
    }
}

/// Judges a server's answer: an error with the runtime code when the
/// answer is a refusal or its body is not JSON.
pub fn check_answer(status: u16, body: &str) -> (r: Result<(), BoxRunError>)
    ensures
        match r {
            Ok(()) => answer_error_of(status, body@) is None,
            Err(e) => e.code == ErrorCode::RuntimeError && answer_error_of(status, body@) == Some(e.message@),
        },
{
    if status >= 400 {
        let fields = read_error_members(body);
        let msg = match fields {
            Some((true, code, message)) => {
                let c = match code {
                    Some(c) => c,
                    None => "UNKNOWN".to_owned(),
                };
                let m = match message {
                    Some(m) => m,
                    None => body.to_owned(),
                };
                let mut s = join3("[", c.as_str(), "] ");
                s.append(m.as_str());
                s
            },
            _ => {
                let mut s = join3("HTTP ", u64_to_text(status as u64).as_str(), ": ");
                s.append(body);
                s
            },
        };
        return Err(BoxRunError::new(ErrorCode::RuntimeError, msg.as_str()));
    }
    let keys: Vec<&str> = Vec::new();
    proof {
        assert(keys_view(keys@) =~= Seq::<Seq<char>>::empty());
    }
    match read_members(body, &keys) {
        Err(e) => Err(BoxRunError::new(ErrorCode::RuntimeError, join2("Invalid JSON: ", e.as_str()).as_str())),
        Ok(_) => Ok(()),
    }
}

/// What reading a streamed event gives: nothing for a keep-alive with no
/// data; an error when the data is not JSON; else the event with its
/// type, and the `data`, `stream` and `seq` members of its data, the
/// first defaulting to the empty text and the last to 0.
pub open spec fn sse_event_of(event_type: Seq<char>, data: Seq<char>) -> Option<Result<ExecEventView, (ErrorCode, Seq<char>)>> {
    if data.len() == 0 {
        None
    } else {
        match event_members(data) {
            Err(e) => Some(Err((ErrorCode::RuntimeError, "Failed to parse SSE event JSON: "@ + e))),
            Ok((d, st, q)) => Some(Ok(ExecEventView {
                event_type,
                data: match d { Some(x) => x, None => Seq::empty() },
                stream: st,
                seq: match q { Some(n) => n, None => 0 },
            })),
        }
    }
}

/// A read event as content.
pub open spec fn sse_event_view(r: Option<Result<ExecEvent, BoxRunError>>) -> Option<Result<ExecEventView, (ErrorCode, Seq<char>)>> {
    match r {
        None => None,
        Some(Ok(e)) => Some(Ok(e@)),
        Some(Err(e)) => Some(Err((e.code, e.message@))),
    }
}

/// Reads a streamed event from its type and its data.
pub fn parse_sse_event(event_type: &str, data: &str) -> (r: Option<Result<ExecEvent, BoxRunError>>)
    ensures
        sse_event_view(r) == sse_event_of(event_type@, data@),
{
    if data.unicode_len() == 0 {
        return None;
    }
    match read_event_members(data) {
        Err(e) => Some(Err(BoxRunError::new(ErrorCode::RuntimeError, join2("Failed to parse SSE event JSON: ", e.as_str()).as_str()))),
        Ok((d, st, q)) => Some(Ok(ExecEvent {
            event_type: event_type.to_owned(),
            data: match d {
                Some(x) => x,
                None => String::new(),
            },
            stream: st,
            seq: match q {
                Some(n) => n,
                None => 0,
            },
        })),
    }
}

/// Whether an event ends the stream: the exit event is the last one.
pub fn ends_stream(event: &ExecEvent) -> (r: bool)
    ensures
        r == (event.event_type@ == "exit"@),
{
    str_eq(event.event_type.as_str(), "exit")
}

/// The text and number members of a box as the server reports it; texts
/// default to empty (the working directory to `/root`) and numbers to 0.
#[derive(Debug, Clone)]
pub struct BoxFields {
    pub id: String,
    pub name: Option<String>,
    pub status: String,
    pub image: String,
    pub workdir: String,
    pub boxlite_id: Option<String>,
    pub error_code: Option<String>,
    pub error_message: Option<String>,
    pub created_at: String,
    pub started_at: Option<String>,
    pub stopped_at: Option<String>,
    pub cpu: i64,
    pub memory_mb: i64,
    pub disk_size_gb: i64,
}

/// The members of a box, as content.
pub struct BoxFieldsView {
    pub id: Seq<char>,
    pub name: Option<Seq<char>>,
    pub status: Seq<char>,
    pub image: Seq<char>,
    pub workdir: Seq<char>,
    pub boxlite_id: Option<Seq<char>>,
    pub error_code: Option<Seq<char>>,
    pub error_message: Option<Seq<char>>,
    pub created_at: Seq<char>,
    pub started_at: Option<Seq<char>>,
    pub stopped_at: Option<Seq<char>>,
    pub cpu: i64,
    pub memory_mb: i64,
    pub disk_size_gb: i64,
}

impl View for BoxFields {
    type V = BoxFieldsView;

    open spec fn view(&self) -> BoxFieldsView {
        BoxFieldsView {
            id: self.id@,
            name: opt_view(self.name),
            status: self.status@,
            image: self.image@,
            workdir: self.workdir@,
            boxlite_id: opt_view(self.boxlite_id),
            error_code: opt_view(self.error_code),
            error_message: opt_view(self.error_message),
            created_at: self.created_at@,
            started_at: opt_view(self.started_at),
            stopped_at: opt_view(self.stopped_at),
            cpu: self.cpu,
            memory_mb: self.memory_mb,
            disk_size_gb: self.disk_size_gb,
        }
    }
}

/// The names of a box's text and number members.
pub open spec fn box_keys() -> Seq<Seq<char>> {
    seq!["id"@, "name"@, "status"@, "image"@, "workdir"@, "boxlite_id"@, "error_code"@, "error_message"@,
        "created_at"@, "started_at"@, "stopped_at"@, "cpu"@, "memory_mb"@, "disk_size_gb"@]
}

/// The box that the members read by `box_keys` give.
pub open spec fn box_fields_of(f: JsonFieldsView) -> BoxFieldsView {
    BoxFieldsView {
        id: text_or(text_at(f, 0), Seq::empty()),
        name: text_at(f, 1),
        status: text_or(text_at(f, 2), Seq::empty()),
        image: text_or(text_at(f, 3), Seq::empty()),
        workdir: text_or(text_at(f, 4), "/root"@),
        boxlite_id: text_at(f, 5),
        error_code: text_at(f, 6),
        error_message: text_at(f, 7),
        created_at: text_or(text_at(f, 8), Seq::empty()),
        started_at: text_at(f, 9),
        stopped_at: text_at(f, 10),
        cpu: int_or(int_at(f, 11), 0),
        memory_mb: int_or(int_at(f, 12), 0),
        disk_size_gb: int_or(int_at(f, 13), 0),
    }
}

/// Members that an answer does not have.
pub open spec fn no_fields() -> JsonFieldsView {
    JsonFieldsView { texts: Seq::empty(), ints: Seq::empty() }
}

fn box_key_list() -> (keys: Vec<&'static str>)
    ensures
        keys_view(keys@) == box_keys(),
{
    let mut keys: Vec<&'static str> = Vec::new();
    keys.push("id");
    keys.push("name");
    keys.push("status");
    keys.push("image");
    keys.push("workdir");
    keys.push("boxlite_id");
    keys.push("error_code");
    keys.push("error_message");
    keys.push("created_at");
    keys.push("started_at");
    keys.push("stopped_at");
    keys.push("cpu");
    keys.push("memory_mb");
    keys.push("disk_size_gb");
    proof {
        assert(keys_view(keys@) =~= box_keys());
    }
    keys
}

fn box_from_fields(f: &JsonFields) -> (r: BoxFields)
    ensures
        r@ == box_fields_of(f@),
{
    BoxFields {
        id: text_or_empty(f, 0),
        name: text_field(f, 1),
        status: text_or_empty(f, 2),
        image: text_or_empty(f, 3),
        workdir: match text_field(f, 4) {
            Some(w) => w,
            None => "/root".to_owned(),
        },
        boxlite_id: text_field(f, 5),
        error_code: text_field(f, 6),
        error_message: text_field(f, 7),
        created_at: text_or_empty(f, 8),
        started_at: text_field(f, 9),
        stopped_at: text_field(f, 10),
        cpu: int_or_zero(f, 11),
        memory_mb: int_or_zero(f, 12),
        disk_size_gb: int_or_zero(f, 13),
    }
}

fn empty_fields() -> (f: JsonFields)
    ensures
        f@ == no_fields(),
{
    let f = JsonFields { texts: Vec::new(), ints: Vec::new() };
    proof {
        assert(f@.texts =~= Seq::<Option<Seq<char>>>::empty());
    }
    f
}

/// The box that an accepted answer reports.
pub open spec fn answered_box(body: Seq<char>) -> BoxFieldsView {
    match json_members(body, box_keys()) {
        Ok(d) => box_fields_of(d.fields),
        Err(_) => box_fields_of(no_fields()),
    }
}

/// Reads the box that an accepted answer reports.
pub fn read_box(body: &str) -> (r: BoxFields)
    ensures
        r@ == answered_box(body@),
{
    let keys = box_key_list();
    match answer_doc(body, &keys) {
        Some(d) => box_from_fields(&d.fields),
        None => box_from_fields(&empty_fields()),
    }
}

pub open spec fn boxes_view(v: Seq<BoxFields>) -> Seq<BoxFieldsView> {
    v.map_values(|b: BoxFields| b@)
}

/// The boxes that an accepted answer lists: one for each element of an
/// array, none for anything else.
pub open spec fn answered_boxes(body: Seq<char>) -> Seq<BoxFieldsView> {
    match json_members(body, box_keys()) {
        Ok(d) => match d.items {
            Some(items) => items.map_values(|f: JsonFieldsView| box_fields_of(f)),
            None => Seq::empty(),
        },
        Err(_) => Seq::empty(),
    }
}

/// Reads the boxes that an accepted answer lists.
pub fn read_boxes(body: &str) -> (r: Vec<BoxFields>)
    ensures
        boxes_view(r@) == answered_boxes(body@),
{
    let keys = box_key_list();
    let mut out: Vec<BoxFields> = Vec::new();
    let doc = match answer_doc(body, &keys) {
        Some(d) => d,
        None => {
            proof {
                assert(boxes_view(out@) =~= Seq::<BoxFieldsView>::empty());
            }
            return out;
        },
    };
    let items = match doc.items {
        Some(v) => v,
        None => {
            proof {
                assert(boxes_view(out@) =~= Seq::<BoxFieldsView>::empty());
            }
            return out;
        },
    };
    let ghost its = crate::json::fields_views(items@);
    let mut i: usize = 0;
    while i < items.len()
        invariant
            i <= items@.len(),
            its == crate::json::fields_views(items@),
            boxes_view(out@) == its.take(i as int).map_values(|f: JsonFieldsView| box_fields_of(f)),
        decreases items@.len() - i,
    {
        let b = box_from_fields(&items[i]);
        let ghost before = boxes_view(out@);
        out.push(b);
        proof {
            assert(boxes_view(out@) =~= before.push(b@));
            assert(its.take(i + 1).map_values(|f: JsonFieldsView| box_fields_of(f))
                =~= its.take(i as int).map_values(|f: JsonFieldsView| box_fields_of(f)).push(box_fields_of(its[i as int])));
        }
        i = i + 1;
    }
    proof {
        assert(its.take(i as int) =~= its);
    }
    out
}

/// The text and number members of an execution as the server reports it;
/// texts default to empty.
#[derive(Debug, Clone)]
pub struct ExecFields {
    pub id: String,
    pub box_id: String,
    pub status: String,
    pub workdir: Option<String>,
    pub error_message: Option<String>,
    pub created_at: String,
    pub finished_at: Option<String>,
    pub timeout_ms: Option<i64>,
    pub exit_code: Option<i64>,
}

/// The members of an execution, as content.
pub struct ExecFieldsView {
    pub id: Seq<char>,
    pub box_id: Seq<char>,
    pub status: Seq<char>,
    pub workdir: Option<Seq<char>>,
    pub error_message: Option<Seq<char>>,
    pub created_at: Seq<char>,
    pub finished_at: Option<Seq<char>>,
    pub timeout_ms: Option<i64>,
    pub exit_code: Option<i64>,
}

impl View for ExecFields {
    type V = ExecFieldsView;

    open spec fn view(&self) -> ExecFieldsView {
        ExecFieldsView {
            id: self.id@,
            box_id: self.box_id@,
            status: self.status@,
            workdir: opt_view(self.workdir),
            error_message: opt_view(self.error_message),
            created_at: self.created_at@,
            finished_at: opt_view(self.finished_at),
            timeout_ms: self.timeout_ms,
            exit_code: self.exit_code,
        }
    }
}

/// The names of an execution's text and number members.
pub open spec fn exec_info_keys() -> Seq<Seq<char>> {
    seq!["id"@, "box_id"@, "status"@, "workdir"@, "error_message"@, "created_at"@, "finished_at"@,
        "timeout_ms"@, "exit_code"@]
}

/// The execution that an accepted answer reports.
pub open spec fn answered_exec(body: Seq<char>) -> ExecFieldsView {
    let f = match json_members(body, exec_info_keys()) {
        Ok(d) => d.fields,
        Err(_) => no_fields(),
    };
    ExecFieldsView {
        id: text_or(text_at(f, 0), Seq::empty()),
        box_id: text_or(text_at(f, 1), Seq::empty()),
        status: text_or(text_at(f, 2), Seq::empty()),
        workdir: text_at(f, 3),
        error_message: text_at(f, 4),
        created_at: text_or(text_at(f, 5), Seq::empty()),
        finished_at: text_at(f, 6),
        timeout_ms: int_at(f, 7),
        exit_code: int_at(f, 8),
    }
}

/// Reads the execution that an accepted answer reports.
pub fn read_exec(body: &str) -> (r: ExecFields)
    ensures
        r@ == answered_exec(body@),
{
    let mut keys: Vec<&str> = Vec::new();
    keys.push("id");
    keys.push("box_id");
    keys.push("status");
    keys.push("workdir");
    keys.push("error_message");
    keys.push("created_at");
    keys.push("finished_at");
    keys.push("timeout_ms");
    keys.push("exit_code");
    proof {
        assert(keys_view(keys@) =~= exec_info_keys());
    }
    let f = match answer_doc(body, &keys) {
        Some(d) => d.fields,
        None => empty_fields(),
    };
    ExecFields {
        id: text_or_empty(&f, 0),
        box_id: text_or_empty(&f, 1),
        status: text_or_empty(&f, 2),
        workdir: text_field(&f, 3),
        error_message: text_field(&f, 4),
        created_at: text_or_empty(&f, 5),
        finished_at: text_field(&f, 6),
        timeout_ms: int_field(&f, 7),
        exit_code: int_field(&f, 8),
    }
}

/// The names of a run's members.
pub open spec fn run_result_keys() -> Seq<Seq<char>> {
    seq!["stdout"@, "stderr"@, "error_message"@, "exit_code"@]
}

/// Reads the outcome of a run: its outputs (empty when missing), its
/// error message and its exit code.
pub fn read_run_result(body: &str) -> (r: RunResult)
    ensures
        r.stdout@ == text_or(answer_text(body@, run_result_keys(), 0), Seq::empty()),
        r.stderr@ == text_or(answer_text(body@, run_result_keys(), 1), Seq::empty()),
        opt_view(r.error_message) == answer_text(body@, run_result_keys(), 2),
        r.exit_code == answer_int(body@, run_result_keys(), 3),
{
    let mut keys: Vec<&str> = Vec::new();
    keys.push("stdout");
    keys.push("stderr");
    keys.push("error_message");
    keys.push("exit_code");
    proof {
        assert(keys_view(keys@) =~= run_result_keys());
    }
    let f = match answer_doc(body, &keys) {
        Some(d) => d.fields,
        None => empty_fields(),
    };
    RunResult {
        exit_code: int_field(&f, 3),
        stdout: text_or_empty(&f, 0),
        stderr: text_or_empty(&f, 1),
        error_message: text_field(&f, 2),
    }
}

/// Reads how many boxes a collection removed: 0 when the answer does not
/// say.
pub fn read_removed(body: &str) -> (r: i64)
    ensures
        r == int_or(answer_int(body@, gc_keys(), 0), 0),
{
    let mut keys: Vec<&str> = Vec::new();
    keys.push("removed");
    proof {
        assert(keys_view(keys@) =~= gc_keys());
    }
    match answer_doc(body, &keys) {
        Some(d) => int_or_zero(&d.fields, 0),
        None => 0,
    }
}

} // verus!
