//! The members that the library reads from JSON texts, parsed by
//! `serde_json`, and the debug rendering of a text. What the parser gives
//! is named, not restated: the library's contracts speak of the name.
use vstd::prelude::*;
use std::collections::HashMap;
use crate::models::opt_view;

verus! {

/// The members of one JSON value that the library reads, for the names
/// asked for, in their order: each member as a text when it is a string,
/// and as an integer when it is an integer that fits an `i64`.
pub struct JsonFields {
    pub texts: Vec<Option<String>>,
    pub ints: Vec<Option<i64>>,
}

/// The members of one JSON value, as content.
pub struct JsonFieldsView {
    pub texts: Seq<Option<Seq<char>>>,
    pub ints: Seq<Option<i64>>,
}

pub open spec fn opt_texts_view(v: Seq<Option<String>>) -> Seq<Option<Seq<char>>> {
    v.map_values(|o: Option<String>| opt_view(o))
}

impl View for JsonFields {
    type V = JsonFieldsView;

    open spec fn view(&self) -> JsonFieldsView {
        JsonFieldsView { texts: opt_texts_view(self.texts@), ints: self.ints@ }
    }
}

/// What the library reads from a JSON text: whether it is an object, the
/// members asked for, and, when it is an array, the same members of each
/// of its elements.
pub struct JsonDoc {
    pub is_object: bool,
    pub fields: JsonFields,
    pub items: Option<Vec<JsonFields>>,
}

/// What the library reads from a JSON text, as content.
pub struct JsonDocView {
    pub is_object: bool,
    pub fields: JsonFieldsView,
    pub items: Option<Seq<JsonFieldsView>>,
}

pub open spec fn fields_views(v: Seq<JsonFields>) -> Seq<JsonFieldsView> {
    v.map_values(|f: JsonFields| f@)
}

impl View for JsonDoc {
    type V = JsonDocView;

    open spec fn view(&self) -> JsonDocView {
        JsonDocView {
            is_object: self.is_object,
            fields: self.fields@,
            items: match self.items {
                Some(v) => Some(fields_views(v@)),
                None => None,
            },
        }
    }
}

/// The names of members, as content.
pub open spec fn keys_view(keys: Seq<&str>) -> Seq<Seq<char>> {
    keys.map_values(|k: &str| k@)
}

/// What `serde_json` parses from a text, read for the named members, or
/// the text of the parse error when the text is not JSON.
pub uninterp spec fn json_members(text: Seq<char>, keys: Seq<Seq<char>>) -> Result<JsonDocView, Seq<char>>;

/// A member read as a text: absent when it is no string.
pub open spec fn text_at(f: JsonFieldsView, i: int) -> Option<Seq<char>> {
    if 0 <= i < f.texts.len() { f.texts[i] } else { None }
}

/// A member read as an integer: absent when it is no integer.
pub open spec fn int_at(f: JsonFieldsView, i: int) -> Option<i64> {
    if 0 <= i < f.ints.len() { f.ints[i] } else { None }
}

/// Reads the member at a position of the names as a text.
pub fn text_field(f: &JsonFields, i: usize) -> (r: Option<String>)
    ensures
        opt_view(r) == text_at(f@, i as int),
{
    if i < f.texts.len() {
        match &f.texts[i] {
            Some(t) => Some(t.clone()),
            None => None,
        }
    } else {
        None
    }
}

/// Reads the member at a position of the names as an integer.
pub fn int_field(f: &JsonFields, i: usize) -> (r: Option<i64>)
    ensures
        r == int_at(f@, i as int),
{
    if i < f.ints.len() { f.ints[i] } else { None }
}

/// The debug rendering of a text, as `format!("{:?}", ..)` writes it: the
/// text in double quotes, with quotes, backslashes and control characters
/// escaped.
pub uninterp spec fn debug_text(s: Seq<char>) -> Seq<char>;

/// The map of texts that `serde_json` reads from a text, or `None` when
/// the text is not a JSON object whose members are all strings.
pub uninterp spec fn env_json(text: Seq<char>) -> Option<Map<String, String>>;

/// Reads a map of texts with `serde_json::from_str::<HashMap<String,
/// String>>`, `None` on an error. The contract claims only that the result
/// is a function of the text.
#[verifier::external_body]
pub(crate) fn read_env_json(text: &str) -> (r: Option<HashMap<String, String>>)
    ensures
        crate::store::env_view(r) == env_json(text@),
{
    serde_json::from_str(text).ok()
}

/// Parses a text with `serde_json::from_str` into a `serde_json::Value`
/// and reads, for each name asked for, the member with `Value::get` and
/// `Value::as_str` or `Value::as_i64`, with `Value::is_object`, and with
/// `Value::as_array` for the elements of an array; a parse error is given
/// as its `Display` text. The contract claims only that the result is a
/// function of the text and the names.
#[verifier::external_body]
pub(crate) fn read_json_members(text: &str, keys: &[&str]) -> (r: Result<JsonDoc, String>)
    ensures
        match r {
            Ok(d) => json_members(text@, keys_view(keys@)) == Ok::<JsonDocView, Seq<char>>(d@),
            Err(e) => json_members(text@, keys_view(keys@)) == Err::<JsonDocView, Seq<char>>(e@),
        },
{
    let pick = |v: &serde_json::Value| JsonFields {
        texts: keys.iter().map(|k| v.get(*k).and_then(serde_json::Value::as_str).map(str::to_owned)).collect(),
        ints: keys.iter().map(|k| v.get(*k).and_then(serde_json::Value::as_i64)).collect(),
    };
    match serde_json::from_str::<serde_json::Value>(text) {
        Ok(v) => Ok(JsonDoc { is_object: v.is_object(), fields: pick(&v), items: v.as_array().map(|a| a.iter().map(&pick).collect()) }),
        Err(e) => Err(e.to_string()),
    }
}

/// The names that the error of an answer is read by.
pub open spec fn error_keys() -> Seq<Seq<char>> {
    seq!["code"@, "message"@]
}

/// The names that the data of a streamed event is read by.
pub open spec fn event_keys() -> Seq<Seq<char>> {
    seq!["data"@, "stream"@, "seq"@]
}

/// The name of an exit code.
pub open spec fn exit_keys() -> Seq<Seq<char>> {
    seq!["exit_code"@]
}

/// Reads a text for the given names, built from a list of names.
pub fn read_members(text: &str, keys: &Vec<&str>) -> (r: Result<JsonDoc, String>)
    ensures
        match r {
            Ok(d) => json_members(text@, keys_view(keys@)) == Ok::<JsonDocView, Seq<char>>(d@),
            Err(e) => json_members(text@, keys_view(keys@)) == Err::<JsonDocView, Seq<char>>(e@),
        },
{
    read_json_members(text, keys.as_slice())
}

/// The `exit_code` member of a text: `None` when the text is not JSON,
/// else the member when it is an integer.
pub open spec fn exit_code_member(text: Seq<char>) -> Option<Option<i64>> {
    match json_members(text, exit_keys()) {
        Ok(m) => Some(int_at(m.fields, 0)),
        Err(_) => None,
    }
}

/// The error members of a body: `None` when the body is not JSON, else
/// whether it is an object, and its `code` and `message` members.
pub open spec fn error_members(text: Seq<char>) -> Option<(bool, Option<Seq<char>>, Option<Seq<char>>)> {
    match json_members(text, error_keys()) {
        Ok(m) => Some((m.is_object, text_at(m.fields, 0), text_at(m.fields, 1))),
        Err(_) => None,
    }
}

/// The members of the data of a streamed event: its `data`, `stream` and
/// `seq` members, or the parse error's text.
pub open spec fn event_members(text: Seq<char>) -> Result<(Option<Seq<char>>, Option<Seq<char>>, Option<i64>), Seq<char>> {
    match json_members(text, event_keys()) {
        Ok(m) => Ok((text_at(m.fields, 0), text_at(m.fields, 1), int_at(m.fields, 2))),
        Err(e) => Err(e),
    }
}

/// Reads the `exit_code` member of a text.
pub fn read_exit_code(text: &str) -> (r: Option<Option<i64>>)
    ensures
        r == exit_code_member(text@),
{
    let mut keys: Vec<&str> = Vec::new();
    keys.push("exit_code");
    proof {
        assert(keys_view(keys@) =~= exit_keys());
    }
    match read_members(text, &keys) {
        Ok(m) => Some(int_field(&m.fields, 0)),
        Err(_) => None,
    }
}

/// Reads the error members of a body.
pub fn read_error_members(text: &str) -> (r: Option<(bool, Option<String>, Option<String>)>)
    ensures
        match r {
            None => error_members(text@) is None,
            Some((o, c, m)) => error_members(text@) == Some((o, opt_view(c), opt_view(m))),
        },
{
    let mut keys: Vec<&str> = Vec::new();
    keys.push("code");
    keys.push("message");
    proof {
        assert(keys_view(keys@) =~= error_keys());
    }
    match read_members(text, &keys) {
        Ok(m) => Some((m.is_object, text_field(&m.fields, 0), text_field(&m.fields, 1))),
        Err(_) => None,
    }
}

/// Reads the members of the data of a streamed event.
pub fn read_event_members(text: &str) -> (r: Result<(Option<String>, Option<String>, Option<i64>), String>)
    ensures
        match r {
            Ok((d, s, q)) => event_members(text@) == Ok::<(Option<Seq<char>>, Option<Seq<char>>, Option<i64>), Seq<char>>((opt_view(d), opt_view(s), q)),
            Err(e) => event_members(text@) == Err::<(Option<Seq<char>>, Option<Seq<char>>, Option<i64>), Seq<char>>(e@),
        },
{
    let mut keys: Vec<&str> = Vec::new();
    keys.push("data");
    keys.push("stream");
    keys.push("seq");
    proof {
        assert(keys_view(keys@) =~= event_keys());
    }
    match read_members(text, &keys) {
        Ok(m) => Ok((text_field(&m.fields, 0), text_field(&m.fields, 1), int_field(&m.fields, 2))),
        Err(e) => Err(e),
    }
}

/// The debug rendering of a text, from `format!` with `{:?}`. The
/// contract claims only that the result is a function of the text.
#[verifier::external_body]
pub(crate) fn debug_quoted(s: &str) -> (r: String)
    ensures
        r@ == debug_text(s@),
{
    format!("{s:?}")
}

} // verus!
