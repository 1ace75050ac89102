//! Laws on what the library's operations give, stated over their inputs
//! apart from the functions that compute them: the output of a run, the
//! execution that a command starts, and the rows of a box listing.
use vstd::prelude::*;
use crate::routes::run_output;
use crate::json::exit_code_member;
use crate::store::{EventRowView, ExecRowView, lookup_box, exec_has_id};
use crate::box_manager::{ManagerView, exec_in_box_next, exec_in_box_answer, get_exec_result};
use crate::seqs::{first_index, lemma_first_index, lemma_first_index_at};
use crate::json::{JsonFieldsView, json_members, text_at, int_at};
use crate::answers::{listing_keys, listing_of, item_line, item_lines, text_or, int_or};
use crate::cli::{box_table_header_of, box_table_row_of, cuttable_at_19};
use crate::text::repeated;

verus! {

/// Whether an event is a log line on the given stream.
pub open spec fn is_log_on(stream: Seq<char>) -> spec_fn(EventRowView) -> bool {
    |e: EventRowView| e.event_type == "log"@ && e.stream == Some(stream)
}

/// Whether an event is an exit event whose data gives an exit code member.
pub open spec fn is_readable_exit() -> spec_fn(EventRowView) -> bool {
    |e: EventRowView| e.event_type == "exit"@ && exit_code_member(e.data) is Some
}

/// The data of events, joined in their order.
pub open spec fn joined_data(evs: Seq<EventRowView>) -> Seq<char> {
    evs.map_values(|e: EventRowView| e.data).flatten()
}

/// The exit code that the last of the readable exit events gives, if any.
pub open spec fn last_exit_code(exits: Seq<EventRowView>) -> Option<i64> {
    if exits.len() == 0 {
        None
    } else {
        exit_code_member(exits.last().data)->0
    }
}

proof fn lemma_joined_push(evs: Seq<EventRowView>, e: EventRowView)
    ensures
        joined_data(evs.push(e)) == joined_data(evs) + e.data,
{
    let f = |x: EventRowView| x.data;
    assert(evs.push(e).map_values(f) =~= evs.map_values(f).push(e.data));
    evs.map_values(f).lemma_flatten_push(e.data);
}

/// The output of a run is what its events logged: its standard output is
/// the data of every log event on `stdout`, joined in the order of the
/// events, its standard error likewise for `stderr`, and its exit code is
/// the one that the last exit event with a readable code gives (none when
/// there is no such event).
pub proof fn law_run_output_joins_logs(evs: Seq<EventRowView>)
    ensures
        run_output(evs).0 == joined_data(evs.filter(is_log_on("stdout"@))),
        run_output(evs).1 == joined_data(evs.filter(is_log_on("stderr"@))),
        run_output(evs).2 == last_exit_code(evs.filter(is_readable_exit())),
    decreases evs.len(),
{
    reveal_strlit("stdout");
    reveal_strlit("stderr");
    reveal_strlit("log");
    reveal_strlit("exit");
    if evs.len() == 0 {
        assert(evs.filter(is_log_on("stdout"@)) =~= Seq::<EventRowView>::empty());
        assert(evs.filter(is_log_on("stderr"@)) =~= Seq::<EventRowView>::empty());
        assert(evs.filter(is_readable_exit()) =~= Seq::<EventRowView>::empty());
        assert(joined_data(Seq::<EventRowView>::empty()) =~= Seq::<char>::empty());
    } else {
        let d = evs.drop_last();
        let e = evs.last();
        law_run_output_joins_logs(d);
        assert(evs =~= d.push(e));
        d.lemma_filter_push(e, is_log_on("stdout"@));
        d.lemma_filter_push(e, is_log_on("stderr"@));
        d.lemma_filter_push(e, is_readable_exit());
        lemma_joined_push(d.filter(is_log_on("stdout"@)), e);
        lemma_joined_push(d.filter(is_log_on("stderr"@)), e);
        assert("stdout"@[3] != "stderr"@[3]);
        assert("stdout"@ != "stderr"@);
        assert("log"@.len() != "exit"@.len());
        assert("log"@ != "exit"@);
    }
}

/// A command started in a box carries what was asked of it: the
/// execution that comes back has the given id, belongs to the box that the
/// key names, is running, and holds the requested command, environment,
/// working directory and timeout unchanged, with the given start time; and
/// looking that id up afterwards gives the same execution.
pub proof fn law_exec_carries_request(
    m: ManagerView,
    key: Seq<char>,
    cmd: Seq<String>,
    env: Option<Map<String, String>>,
    workdir: Option<Seq<char>>,
    timeout_ms: Option<i64>,
    exec_id: Seq<char>,
    ts: Seq<char>,
)
    ensures
        exec_in_box_answer(m, key, cmd, env, workdir, timeout_ms, exec_id, ts) is Ok ==> {
            let x = exec_in_box_answer(m, key, cmd, env, workdir, timeout_ms, exec_id, ts)->Ok_0;
            &&& x.id == exec_id
            &&& lookup_box(m.store.boxes, key) is Some
            &&& x.box_id == lookup_box(m.store.boxes, key)->0.id
            &&& x.status == "running"@
            &&& x.cmd == cmd
            &&& x.env == env
            &&& x.workdir == workdir
            &&& x.timeout_ms == timeout_ms
            &&& x.exit_code is None
            &&& x.finished_at is None
            &&& x.created_at == ts
            &&& get_exec_result(exec_in_box_next(m, key, cmd, env, workdir, timeout_ms, exec_id, ts), exec_id)
                == Ok::<ExecRowView, (crate::error::ErrorCode, Seq<char>)>(x)
        },
{
    if exec_in_box_answer(m, key, cmd, env, workdir, timeout_ms, exec_id, ts) is Ok {
        let x = exec_in_box_answer(m, key, cmd, env, workdir, timeout_ms, exec_id, ts)->Ok_0;
        let old_execs = m.store.execs;
        let execs = old_execs.push(x);
        let n = exec_in_box_next(m, key, cmd, env, workdir, timeout_ms, exec_id, ts);
        assert(n.store.execs == execs);
        let p = exec_has_id(exec_id);
        lemma_first_index(old_execs, p);
        assert(first_index(old_execs, p) is None);
        assert forall|j: int| 0 <= j < old_execs.len() implies !p(#[trigger] execs[j]) by {
            assert(execs[j] == old_execs[j]);
            assert(!p(old_execs[j]));
        }
        lemma_first_index_at(execs, p, old_execs.len() as int);
    }
}

/// Whether a name is the given one.
pub open spec fn is_name(k: Seq<char>) -> spec_fn(Seq<char>) -> bool {
    |x: Seq<char>| x == k
}

/// The member of a listed box read under a name as a text, empty when
/// it is absent or no string.
pub open spec fn named_text(f: JsonFieldsView, k: Seq<char>) -> Seq<char> {
    match first_index(listing_keys(), is_name(k)) {
        Some(i) => text_or(text_at(f, i), Seq::empty()),
        None => Seq::empty(),
    }
}

/// The member of a listed box read under a name as an integer, 0 when it
/// is absent or no integer.
pub open spec fn named_int(f: JsonFieldsView, k: Seq<char>) -> i64 {
    match first_index(listing_keys(), is_name(k)) {
        Some(i) => int_or(int_at(f, i), 0),
        None => 0,
    }
}

/// The table row of a listed box: id, name, status, image, CPUs, memory,
/// disk and creation time, each read under its own name.
pub open spec fn row_of_box(f: JsonFieldsView) -> Seq<char> {
    box_table_row_of(
        named_text(f, "id"@),
        named_text(f, "name"@),
        named_text(f, "status"@),
        named_text(f, "image"@),
        named_int(f, "cpu"@),
        named_int(f, "memory_mb"@),
        named_int(f, "disk_size_gb"@),
        named_text(f, "created_at"@),
    )
}

proof fn lemma_key_at(k: Seq<char>, i: int)
    requires
        0 <= i < listing_keys().len(),
        listing_keys()[i] == k,
        forall|j: int| 0 <= j < i ==> (#[trigger] listing_keys()[j]).len() != k.len(),
    ensures
        first_index(listing_keys(), is_name(k)) == Some(i),
{
    let p = is_name(k);
    assert forall|j: int| 0 <= j < i implies !p(#[trigger] listing_keys()[j]) by {
        assert(listing_keys()[j].len() != k.len());
    }
    lemma_first_index_at(listing_keys(), p, i);
}

/// Each name of a listed box is read from its own position.
proof fn lemma_listing_positions()
    ensures
        first_index(listing_keys(), is_name("id"@)) == Some(0int),
        first_index(listing_keys(), is_name("name"@)) == Some(1int),
        first_index(listing_keys(), is_name("status"@)) == Some(2int),
        first_index(listing_keys(), is_name("image"@)) == Some(3int),
        first_index(listing_keys(), is_name("created_at"@)) == Some(4int),
        first_index(listing_keys(), is_name("cpu"@)) == Some(5int),
        first_index(listing_keys(), is_name("memory_mb"@)) == Some(6int),
        first_index(listing_keys(), is_name("disk_size_gb"@)) == Some(7int),
{
    reveal_strlit("id");
    reveal_strlit("name");
    reveal_strlit("status");
    reveal_strlit("image");
    reveal_strlit("created_at");
    reveal_strlit("cpu");
    reveal_strlit("memory_mb");
    reveal_strlit("disk_size_gb");
    let ks = listing_keys();
    assert(ks[0].len() == 2 && ks[1].len() == 4 && ks[2].len() == 6 && ks[3].len() == 5);
    assert(ks[4].len() == 10 && ks[5].len() == 3 && ks[6].len() == 9 && ks[7].len() == 12);
    lemma_key_at("id"@, 0);
    lemma_key_at("name"@, 1);
    lemma_key_at("status"@, 2);
    lemma_key_at("image"@, 3);
    lemma_key_at("created_at"@, 4);
    lemma_key_at("cpu"@, 5);
    lemma_key_at("memory_mb"@, 6);
    lemma_key_at("disk_size_gb"@, 7);
}

proof fn lemma_item_lines(items: Seq<JsonFieldsView>)
    ensures
        item_lines(items).0.len() <= items.len(),
        forall|j: int| 0 <= j < item_lines(items).0.len() ==>
            #[trigger] item_lines(items).0[j] == item_line(items[j])
            && cuttable_at_19(text_or(text_at(items[j], 4), Seq::empty())),
        item_lines(items).1 ==> item_lines(items).0.len() < items.len()
            && !cuttable_at_19(text_or(text_at(items[item_lines(items).0.len() as int], 4), Seq::empty())),
        !item_lines(items).1 ==> item_lines(items).0.len() == items.len(),
    decreases items.len(),
{
    if items.len() > 0 && cuttable_at_19(text_or(text_at(items[0], 4), Seq::empty())) {
        let d = items.drop_first();
        lemma_item_lines(d);
        let r = item_lines(d);
        let l = item_lines(items).0;
        assert(l == seq![item_line(items[0])] + r.0);
        assert forall|j: int| 0 <= j < l.len() implies
            #[trigger] l[j] == item_line(items[j])
            && cuttable_at_19(text_or(text_at(items[j], 4), Seq::empty())) by {
            if j > 0 {
                assert(l[j] == r.0[j - 1]);
                assert(items[j] == d[j - 1]);
            }
        }
        if r.1 {
            assert(items[l.len() as int] == d[r.0.len() as int]);
        }
    }
}

/// A listing of boxes shows, under the header and a rule of dashes as long
/// as the header, one row for each listed box in turn, whose columns are the
/// box's id, name, status, image, CPUs, memory, disk and creation time, each
/// read under its own name; every box is listed unless the listing stops at
/// the first box whose creation time cannot be cut after 19 bytes.
pub proof fn law_listing_rows(body: Seq<char>)
    requires
        json_members(body, listing_keys()) is Ok,
        json_members(body, listing_keys())->Ok_0.items is Some,
        json_members(body, listing_keys())->Ok_0.items->0.len() > 0,
    ensures
        ({
            let items = json_members(body, listing_keys())->Ok_0.items->0;
            let (lines, stopped) = listing_of(body);
            &&& lines.len() >= 2
            &&& lines[0] == box_table_header_of()
            &&& lines[1] == repeated('-', box_table_header_of().len())
            &&& lines.len() - 2 <= items.len()
            &&& forall|j: int| 0 <= j < lines.len() - 2 ==> #[trigger] lines[j + 2] == row_of_box(items[j])
            &&& !stopped ==> lines.len() - 2 == items.len()
            &&& stopped ==> lines.len() - 2 < items.len()
                && !cuttable_at_19(named_text(items[lines.len() - 2], "created_at"@))
        }),
{
    let items = json_members(body, listing_keys())->Ok_0.items->0;
    lemma_listing_positions();
    lemma_item_lines(items);
    let r = item_lines(items);
    let lines = listing_of(body).0;
    assert(lines == seq![box_table_header_of(), repeated('-', box_table_header_of().len())] + r.0);
    assert forall|j: int| 0 <= j < lines.len() - 2 implies #[trigger] lines[j + 2] == row_of_box(items[j]) by {
        assert(lines[j + 2] == r.0[j]);
        assert(r.0[j] == item_line(items[j]));
    }
}

} // verus!
