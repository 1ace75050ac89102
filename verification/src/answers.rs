//! What the command line makes of the server's accepted answers: the
//! lines it prints for a created box, a listing, a stopped or started box
//! and a collection, the outputs of a run, the execution a command
//! started, and the control messages of an attached terminal. An answer
//! that is not JSON reads as an object without members.
use vstd::prelude::*;
use crate::json::{JsonDoc, JsonFields, JsonFieldsView, json_members, keys_view, read_members, text_at, int_at, text_field, int_field};
use crate::models::opt_view;
use crate::text::{join2, join3, int_text, i64_to_text, repeated, repeat_char};
use crate::cli::{box_table_header, box_table_header_of, box_table_row, box_table_row_of, cuttable_at_19, take_bytes, text_bytes, char_bytes, utf8_len, lemma_text_bytes_nonneg};

verus! {

/// The texts of lines, as content.
pub open spec fn lines_view(v: Seq<String>) -> Seq<Seq<char>> {
    v.map_values(|s: String| s@)
}

/// A member of an accepted answer, read as a text.
pub open spec fn answer_text(body: Seq<char>, keys: Seq<Seq<char>>, i: int) -> Option<Seq<char>> {
    match json_members(body, keys) {
        Ok(d) => text_at(d.fields, i),
        Err(_) => None,
    }
}

/// A member of an accepted answer, read as an integer.
pub open spec fn answer_int(body: Seq<char>, keys: Seq<Seq<char>>, i: int) -> Option<i64> {
    match json_members(body, keys) {
        Ok(d) => int_at(d.fields, i),
        Err(_) => None,
    }
}

pub open spec fn text_or(v: Option<Seq<char>>, default: Seq<char>) -> Seq<char> {
    match v {
        Some(t) => t,
        None => default,
    }
}

pub open spec fn int_or(v: Option<i64>, default: i64) -> i64 {
    match v {
        Some(n) => n,
        None => default,
    }
}

/// Reads an answer for a list of names; `None` when it is not JSON.
pub(crate) fn answer_doc(body: &str, keys: &Vec<&str>) -> (r: Option<JsonDoc>)
    ensures
        match r {
            Some(d) => json_members(body@, keys_view(keys@)) == Ok::<_, Seq<char>>(d@),
            None => json_members(body@, keys_view(keys@)) is Err,
        },
{
    match read_members(body, keys) {
        Ok(d) => Some(d),
        Err(_) => None,
    }
}

fn doc_text(doc: &Option<JsonDoc>, i: usize) -> (r: Option<String>)
    ensures
        opt_view(r) == match doc {
            Some(d) => text_at(d@.fields, i as int),
            None => None,
        },
{
    match doc {
        Some(d) => text_field(&d.fields, i),
        None => None,
    }
}

fn doc_int(doc: &Option<JsonDoc>, i: usize) -> (r: Option<i64>)
    ensures
        r == match doc {
            Some(d) => int_at(d@.fields, i as int),
            None => None,
        },
{
    match doc {
        Some(d) => int_field(&d.fields, i),
        None => None,
    }
}

fn push_line(out: &mut Vec<String>, s: String)
    ensures
        lines_view(final(out)@) == lines_view(old(out)@).push(s@),
{
    let ghost before = out@;
    out.push(s);
    proof {
        assert(lines_view(out@) =~= lines_view(before).push(s@));
    }
}

/// The names of a created box that the command line shows.
pub open spec fn created_keys() -> Seq<Seq<char>> {
    seq!["id"@, "name"@, "status"@]
}

/// A line for a member, when it is there.
pub open spec fn opt_line(prefix: Seq<char>, v: Option<Seq<char>>) -> Seq<Seq<char>> {
    match v {
        Some(t) => seq![prefix + t],
        None => Seq::empty(),
    }
}

/// What is printed for a created box: its id, then `Name: ` and its
/// name, then `Status: ` and its status, each when the answer has it.
pub open spec fn created_lines_of(body: Seq<char>) -> Seq<Seq<char>> {
    opt_line(Seq::empty(), answer_text(body, created_keys(), 0))
        + opt_line("Name: "@, answer_text(body, created_keys(), 1))
        + opt_line("Status: "@, answer_text(body, created_keys(), 2))
}

/// The lines printed for a created box.
pub fn created_lines(body: &str) -> (r: Vec<String>)
    ensures
        lines_view(r@) == created_lines_of(body@),
{
    let mut keys: Vec<&str> = Vec::new();
    keys.push("id");
    keys.push("name");
    keys.push("status");
    proof {
        assert(keys_view(keys@) =~= created_keys());
    }
    let doc = answer_doc(body, &keys);
    let mut out: Vec<String> = Vec::new();
    let ghost l0 = opt_line(Seq::empty(), answer_text(body@, created_keys(), 0));
    let ghost l1 = opt_line("Name: "@, answer_text(body@, created_keys(), 1));
    let ghost l2 = opt_line("Status: "@, answer_text(body@, created_keys(), 2));
    match doc_text(&doc, 0) {
        Some(id) => {
            proof {
                assert(Seq::<char>::empty() + id@ =~= id@);
            }
            push_line(&mut out, id);
        },
        None => {},
    }
    proof {
        assert(lines_view(out@) =~= l0);
    }
    match doc_text(&doc, 1) {
        Some(n) => push_line(&mut out, join2("Name: ", n.as_str())),
        None => {},
    }
    proof {
        assert(lines_view(out@) =~= l0 + l1);
    }
    match doc_text(&doc, 2) {
        Some(s) => push_line(&mut out, join2("Status: ", s.as_str())),
        None => {},
    }
    proof {
        assert(lines_view(out@) =~= l0 + l1 + l2);
    }
    out
}

/// The name of a box's id.
pub open spec fn id_keys() -> Seq<Seq<char>> {
    seq!["id"@]
}

/// The id that an answer gives, if it gives one.
pub fn answer_id(body: &str) -> (r: Option<String>)
    ensures
        opt_view(r) == answer_text(body@, id_keys(), 0),
{
    let mut keys: Vec<&str> = Vec::new();
    keys.push("id");
    proof {
        assert(keys_view(keys@) =~= id_keys());
    }
    let doc = answer_doc(body, &keys);
    doc_text(&doc, 0)
}

/// What is printed when a box was stopped or started: the verb and the
/// id that the answer gives, if it gives one.
pub fn action_line(verb: &str, body: &str) -> (r: Option<String>)
    ensures
        opt_view(r) == match answer_text(body@, id_keys(), 0) {
            Some(id) => Some(verb@ + " "@ + id),
            None => None,
        },
{
    match answer_id(body) {
        Some(id) => Some(join3(verb, " ", id.as_str())),
        None => None,
    }
}

/// The names of a started execution.
pub open spec fn exec_keys() -> Seq<Seq<char>> {
    seq!["id"@, "box_id"@]
}

/// The execution that a command started, as its id (empty when the
/// answer gives none) and its box (the box asked for when it gives none).
pub fn exec_started(body: &str, box_id: &str) -> (r: (String, String))
    ensures
        r.0@ == text_or(answer_text(body@, exec_keys(), 0), Seq::empty()),
        r.1@ == text_or(answer_text(body@, exec_keys(), 1), box_id@),
{
    let mut keys: Vec<&str> = Vec::new();
    keys.push("id");
    keys.push("box_id");
    proof {
        assert(keys_view(keys@) =~= exec_keys());
    }
    let doc = answer_doc(body, &keys);
    let id = match doc_text(&doc, 0) {
        Some(t) => t,
        None => String::new(),
    };
    let b = match doc_text(&doc, 1) {
        Some(t) => t,
        None => box_id.to_owned(),
    };
    (id, b)
}

/// The names of a run's outputs.
pub open spec fn run_keys() -> Seq<Seq<char>> {
    seq!["stdout"@, "stderr"@, "exit_code"@]
}

/// The outputs of a run: its standard output and error (empty when the
/// answer gives none) and its exit code (0 when it gives none).
pub fn run_outputs(body: &str) -> (r: (String, String, i64))
    ensures
        r.0@ == text_or(answer_text(body@, run_keys(), 0), Seq::empty()),
        r.1@ == text_or(answer_text(body@, run_keys(), 1), Seq::empty()),
        r.2 == int_or(answer_int(body@, run_keys(), 2), 0),
{
    let mut keys: Vec<&str> = Vec::new();
    keys.push("stdout");
    keys.push("stderr");
    keys.push("exit_code");
    proof {
        assert(keys_view(keys@) =~= run_keys());
    }
    let doc = answer_doc(body, &keys);
    let out = match doc_text(&doc, 0) {
        Some(t) => t,
        None => String::new(),
    };
    let err = match doc_text(&doc, 1) {
        Some(t) => t,
        None => String::new(),
    };
    let code = match doc_int(&doc, 2) {
        Some(c) => c,
        None => 0,
    };
    (out, err, code)
}

/// The name of the count of collected boxes.
pub open spec fn gc_keys() -> Seq<Seq<char>> {
    seq!["removed"@]
}

/// What is printed after a collection: how many boxes it removed, 0
/// when the answer does not say.
pub fn gc_line(body: &str) -> (r: String)
    ensures
        r@ == "Removed "@ + int_text(int_or(answer_int(body@, gc_keys(), 0), 0) as int) + " box(es)"@,
{
    let mut keys: Vec<&str> = Vec::new();
    keys.push("removed");
    proof {
        assert(keys_view(keys@) =~= gc_keys());
    }
    let doc = answer_doc(body, &keys);
    let n = match doc_int(&doc, 0) {
        Some(c) => c,
        None => 0,
    };
    join3("Removed ", i64_to_text(n).as_str(), " box(es)")
}

/// What an attached terminal does with a control message.
#[derive(Debug, Clone)]
pub enum AttachControl {
    /// The session ended with this exit code.
    Exit(i64),
    /// The session failed with this message.
    Error(String),
    /// Anything else is ignored.
    Other,
}

/// A control message, as content.
pub enum AttachControlView {
    Exit(i64),
    Error(Seq<char>),
    Other,
}

impl View for AttachControl {
    type V = AttachControlView;

    open spec fn view(&self) -> AttachControlView {
        match self {
            AttachControl::Exit(c) => AttachControlView::Exit(*c),
            AttachControl::Error(m) => AttachControlView::Error(m@),
            AttachControl::Other => AttachControlView::Other,
        }
    }
}

/// The names of a control message.
pub open spec fn control_keys() -> Seq<Seq<char>> {
    seq!["type"@, "message"@, "code"@]
}

/// What a control message means: of type `exit`, the end with its code
/// (0 when it has none); of type `error`, a failure with its message
/// (`Unknown error` when it has none); anything else, including a text
/// that is not JSON, nothing.
pub open spec fn attach_control_of(text: Seq<char>) -> AttachControlView {
    match json_members(text, control_keys()) {
        Ok(d) => if text_at(d.fields, 0) == Some("exit"@) {
            AttachControlView::Exit(int_or(int_at(d.fields, 2), 0))
        } else if text_at(d.fields, 0) == Some("error"@) {
            AttachControlView::Error(text_or(text_at(d.fields, 1), "Unknown error"@))
        } else {
            AttachControlView::Other
        },
        Err(_) => AttachControlView::Other,
    }
}

/// Reads a control message of an attached terminal.
pub fn attach_control(text: &str) -> (r: AttachControl)
    ensures
        r@ == attach_control_of(text@),
{
    let mut keys: Vec<&str> = Vec::new();
    keys.push("type");
    keys.push("message");
    keys.push("code");
    proof {
        assert(keys_view(keys@) =~= control_keys());
    }
    match read_members(text, &keys) {
        Ok(d) => {
            let kind = text_field(&d.fields, 0);
            let is_exit = match &kind {
                Some(k) => crate::text::str_eq(k.as_str(), "exit"),
                None => false,
            };
            let is_error = match &kind {
                Some(k) => crate::text::str_eq(k.as_str(), "error"),
                None => false,
            };
            if is_exit {
                AttachControl::Exit(match int_field(&d.fields, 2) {
                    Some(c) => c,
                    None => 0,
                })
            } else if is_error {
                AttachControl::Error(match text_field(&d.fields, 1) {
                    Some(m) => m,
                    None => "Unknown error".to_owned(),
                })
            } else {
                AttachControl::Other
            }
        },
        Err(_) => AttachControl::Other,
    }
}

proof fn lemma_text_bytes_concat(a: Seq<char>, b: Seq<char>)
    ensures
        text_bytes(a + b) == text_bytes(a) + text_bytes(b),
    decreases a.len(),
{
    if a.len() == 0 {
        assert(a + b =~= b);
    } else {
        assert((a + b).drop_first() =~= a.drop_first() + b);
        lemma_text_bytes_concat(a.drop_first(), b);
    }
}

/// Whether a text can be cut after its first 19 bytes.
pub fn cut_fits(s: &str) -> (r: bool)
    ensures
        r == cuttable_at_19(s@),
{
    let ghost t = s@;
    let n = s.unicode_len();
    let mut i: usize = 0;
    let mut used: u64 = 0;
    proof {
        assert(t.skip(0) =~= t);
        assert(t.take(0) =~= Seq::<char>::empty());
    }
    loop
        invariant
            t == s@,
            n == t.len(),
            i <= n,
            used <= 19,
            used == text_bytes(t.take(i as int)),
            used + text_bytes(t.skip(i as int)) == text_bytes(t),
            take_bytes(t, 19) == t.take(i as int) + take_bytes(t.skip(i as int), 19 - used),
        decreases n - i,
    {
        if i == n {
            proof {
                assert(t.skip(i as int) =~= Seq::<char>::empty());
                assert(t.take(i as int) =~= t);
                assert(t.take(i as int) + Seq::<char>::empty() =~= t);
            }
            return true;
        }
        let c = s.get_char(i);
        let b = utf8_len(c);
        let ghost rest = t.skip(i as int);
        proof {
            assert(rest[0] == c);
            assert(rest.drop_first() =~= t.skip(i + 1));
        }
        if used + b > 19 {
            proof {
                lemma_text_bytes_nonneg(t.skip(i + 1));
                assert(take_bytes(rest, 19 - used) =~= Seq::<char>::empty());
                assert(t.take(i as int) + Seq::<char>::empty() =~= t.take(i as int));
            }
            return used == 19;
        }
        proof {
            assert(t.take(i as int) + (seq![c] + take_bytes(t.skip(i + 1), 19 - used - b))
                =~= t.take(i + 1) + take_bytes(t.skip(i + 1), 19 - (used + b)));
            assert(t.take(i + 1) =~= t.take(i as int) + seq![c]);
            lemma_text_bytes_concat(t.take(i as int), seq![c]);
            assert(seq![c].drop_first() =~= Seq::<char>::empty());
            assert(text_bytes(Seq::<char>::empty()) == 0);
            assert(text_bytes(seq![c]) == char_bytes(c) + text_bytes(seq![c].drop_first()));
        }
        used = used + b;
        i = i + 1;
    }
}

/// The names of a listed box.
pub open spec fn listing_keys() -> Seq<Seq<char>> {
    seq!["id"@, "name"@, "status"@, "image"@, "created_at"@, "cpu"@, "memory_mb"@, "disk_size_gb"@]
}

/// The line of a listed box: its members, with texts defaulting to empty
/// and numbers to 0.
pub open spec fn item_line(f: JsonFieldsView) -> Seq<char> {
    box_table_row_of(
        text_or(text_at(f, 0), Seq::empty()),
        text_or(text_at(f, 1), Seq::empty()),
        text_or(text_at(f, 2), Seq::empty()),
        text_or(text_at(f, 3), Seq::empty()),
        int_or(int_at(f, 5), 0),
        int_or(int_at(f, 6), 0),
        int_or(int_at(f, 7), 0),
        text_or(text_at(f, 4), Seq::empty()),
    )
}

/// The lines of listed boxes, up to the first whose creation time cannot
/// be cut after 19 bytes, and whether there was such a box.
pub open spec fn item_lines(items: Seq<JsonFieldsView>) -> (Seq<Seq<char>>, bool)
    decreases items.len(),
{
    if items.len() == 0 {
        (Seq::empty(), false)
    } else if !cuttable_at_19(text_or(text_at(items[0], 4), Seq::empty())) {
        (Seq::empty(), true)
    } else {
        let r = item_lines(items.drop_first());
        (seq![item_line(items[0])] + r.0, r.1)
    }
}

pub open spec fn no_boxes() -> (Seq<Seq<char>>, bool) {
    (seq!["No boxes found."@], false)
}

/// What is printed for a listing: `No boxes found.` unless the answer is
/// an array with elements; else the header, a rule of dashes as long as
/// the header, and a line for each box in turn. The flag tells that a box
/// came whose creation time cannot be cut after 19 bytes, where the
/// listing stops.
pub open spec fn listing_of(body: Seq<char>) -> (Seq<Seq<char>>, bool) {
    match json_members(body, listing_keys()) {
        Ok(d) => match d.items {
            Some(items) => if items.len() > 0 {
                let r = item_lines(items);
                (seq![box_table_header_of(), repeated('-', box_table_header_of().len())] + r.0, r.1)
            } else {
                no_boxes()
            },
            None => no_boxes(),
        },
        Err(_) => no_boxes(),
    }
}

pub(crate) fn text_or_empty(f: &JsonFields, i: usize) -> (r: String)
    ensures
        r@ == text_or(text_at(f@, i as int), Seq::empty()),
{
    match text_field(f, i) {
        Some(t) => t,
        None => String::new(),
    }
}

pub(crate) fn int_or_zero(f: &JsonFields, i: usize) -> (r: i64)
    ensures
        r == int_or(int_at(f@, i as int), 0),
{
    match int_field(f, i) {
        Some(n) => n,
        None => 0,
    }
}

/// The lines printed for a listing, and whether it stopped at a creation
/// time that cannot be cut after 19 bytes.
pub fn listing_lines(body: &str) -> (r: (Vec<String>, bool))
    ensures
        (lines_view(r.0@), r.1) == listing_of(body@),
{
    let mut keys: Vec<&str> = Vec::new();
    keys.push("id");
    keys.push("name");
    keys.push("status");
    keys.push("image");
    keys.push("created_at");
    keys.push("cpu");
    keys.push("memory_mb");
    keys.push("disk_size_gb");
    proof {
        assert(keys_view(keys@) =~= listing_keys());
    }
    let mut out: Vec<String> = Vec::new();
    let doc = match answer_doc(body, &keys) {
        Some(d) => d,
        None => {
            push_line(&mut out, "No boxes found.".to_owned());
            proof {
                reveal_strlit("No boxes found.");
                assert(lines_view(out@) =~= seq!["No boxes found."@]);
            }
            return (out, false);
        },
    };
    let items = match doc.items {
        Some(v) => v,
        None => {
            push_line(&mut out, "No boxes found.".to_owned());
            proof {
                assert(lines_view(out@) =~= seq!["No boxes found."@]);
            }
            return (out, false);
        },
    };
    if items.len() == 0 {
        push_line(&mut out, "No boxes found.".to_owned());
        proof {
            assert(lines_view(out@) =~= seq!["No boxes found."@]);
        }
        return (out, false);
    }
    let ghost its = crate::json::fields_views(items@);
    let header = box_table_header();
    let width = header.unicode_len();
    push_line(&mut out, header);
    push_line(&mut out, repeat_char('-', width));
    let ghost head = lines_view(out@);
    proof {
        assert(head =~= seq![box_table_header_of(), repeated('-', box_table_header_of().len())]);
        assert(its.skip(0) =~= its);
        assert(head + Seq::<Seq<char>>::empty() =~= head);
        assert(listing_of(body@) == (head + item_lines(its).0, item_lines(its).1));
    }
    let mut i: usize = 0;
    while i < items.len()
        invariant
            i <= items@.len(),
            its == crate::json::fields_views(items@),
            lines_view(out@).len() >= 2,
            listing_of(body@) == (head + item_lines(its).0, item_lines(its).1),
            lines_view(out@).take(2) == head,
            item_lines(its) == (lines_view(out@).skip(2) + item_lines(its.skip(i as int)).0, item_lines(its.skip(i as int)).1),
        decreases items@.len() - i,
    {
        let f = &items[i];
        let created = text_or_empty(f, 4);
        let ghost rest = its.skip(i as int);
        proof {
            assert(rest[0] == f@);
            assert(rest.drop_first() =~= its.skip(i + 1));
        }
        if !cut_fits(created.as_str()) {
            proof {
                assert(!cuttable_at_19(text_or(text_at(rest[0], 4), Seq::empty())));
                assert(item_lines(rest) == (Seq::<Seq<char>>::empty(), true));
                assert(lines_view(out@).skip(2) + Seq::<Seq<char>>::empty() =~= lines_view(out@).skip(2));
                assert(lines_view(out@) =~= head + lines_view(out@).skip(2));
            }
            return (out, true);
        }
        let line = box_table_row(
            text_or_empty(f, 0).as_str(),
            text_or_empty(f, 1).as_str(),
            text_or_empty(f, 2).as_str(),
            text_or_empty(f, 3).as_str(),
            int_or_zero(f, 5),
            int_or_zero(f, 6),
            int_or_zero(f, 7),
            created.as_str(),
        );
        let ghost before = lines_view(out@);
        push_line(&mut out, line);
        proof {
            assert(lines_view(out@).take(2) =~= before.take(2));
            assert(lines_view(out@).skip(2) =~= before.skip(2).push(item_line(f@)));
            let r1 = item_lines(its.skip(i + 1));
            assert(before.skip(2) + (seq![item_line(f@)] + r1.0) =~= lines_view(out@).skip(2) + r1.0);
        }
        i = i + 1;
    }
    proof {
        assert(its.skip(i as int) =~= Seq::<JsonFieldsView>::empty());
        assert(item_lines(its.skip(i as int)) == (Seq::<Seq<char>>::empty(), false));
        assert(lines_view(out@).skip(2) + Seq::<Seq<char>>::empty() =~= lines_view(out@).skip(2));
        assert(lines_view(out@) =~= head + lines_view(out@).skip(2));
    }
    (out, false)
}

} // verus!
