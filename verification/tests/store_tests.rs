use std::collections::HashMap;

use boxrun::store::{BoxValue, EventRow, Store};

fn new_box(store: &mut Store, id: &str, name: Option<&str>) {
    store
        .create_box(id, name, "ubuntu:24.04", 2, 1024, 8, false, "/root", &None, &None)
        .unwrap();
}

#[test]
fn test_create_and_get_box() {
    let mut store = Store::new();
    let row = store
        .create_box("box_123", Some("mybox"), "ubuntu:24.04", 2, 1024, 8, false, "/root", &None, &None)
        .unwrap();
    assert_eq!(row.id, "box_123");
    assert_eq!(row.name, Some("mybox".into()));
    assert_eq!(row.status, "creating");
    assert_eq!(row.image, "ubuntu:24.04");

    let fetched = store.get_box("box_123").unwrap().unwrap();
    assert_eq!(fetched.id, "box_123");

    // Get by name
    let fetched = store.get_box("mybox").unwrap().unwrap();
    assert_eq!(fetched.id, "box_123");
}

#[test]
fn test_update_box() {
    let mut store = Store::new();
    new_box(&mut store, "box_1", None);
    let updated = store
        .update_box("box_1", &[("status", BoxValue::Text("running".into()))])
        .unwrap();
    assert_eq!(updated.status, "running");
}

#[test]
fn test_duplicate_name() {
    let mut store = Store::new();
    new_box(&mut store, "box_1", Some("dup"));
    let err = store.create_box("box_2", Some("dup"), "ubuntu:24.04", 2, 1024, 8, false, "/root", &None, &None);
    assert!(err.is_err());
    assert!(err.unwrap_err().contains("already exists"));
}

#[test]
fn test_list_boxes() {
    let mut store = Store::new();
    new_box(&mut store, "box_1", None);
    new_box(&mut store, "box_2", None);
    let all = store.list_boxes(None).unwrap();
    assert_eq!(all.len(), 2);
}

#[test]
fn test_delete_box() {
    let mut store = Store::new();
    new_box(&mut store, "box_del", None);
    store.delete_box("box_del").unwrap();
    let fetched = store.get_box("box_del").unwrap();
    assert!(fetched.is_none());
}

#[test]
fn test_create_and_get_exec() {
    let mut store = Store::new();
    new_box(&mut store, "box_e", None);
    let exec = store
        .create_exec("exec_1", "box_e", &["ls".into(), "-la".into()], &None, None, None)
        .unwrap();
    assert_eq!(exec.id, "exec_1");
    assert_eq!(exec.status, "running");
    assert_eq!(exec.cmd, vec!["ls", "-la"]);

    let fetched = store.get_exec("exec_1").unwrap().unwrap();
    assert_eq!(fetched.box_id, "box_e");
}

#[test]
fn test_finish_exec() {
    let mut store = Store::new();
    new_box(&mut store, "box_f", None);
    store.create_exec("exec_f", "box_f", &["echo".into()], &None, None, None).unwrap();

    let finished = store.finish_exec("exec_f", 0, None).unwrap();
    assert_eq!(finished.status, "succeeded");
    assert_eq!(finished.exit_code, Some(0));

    // Failed exec
    store.create_exec("exec_f2", "box_f", &["false".into()], &None, None, None).unwrap();
    let failed = store.finish_exec("exec_f2", 1, None).unwrap();
    assert_eq!(failed.status, "failed");
}

#[test]
fn test_cancel_exec() {
    let mut store = Store::new();
    new_box(&mut store, "box_c", None);
    store.create_exec("exec_c", "box_c", &["sleep".into()], &None, None, None).unwrap();
    let canceled = store.cancel_exec("exec_c").unwrap();
    assert_eq!(canceled.status, "canceled");
}

#[test]
fn test_events() {
    let mut store = Store::new();
    new_box(&mut store, "box_ev", None);
    store.create_exec("exec_ev", "box_ev", &["ls".into()], &None, None, None).unwrap();

    store.append_event("exec_ev", 0, "log", "hello\n", Some("stdout")).unwrap();
    store.append_event("exec_ev", 1, "log", "err\n", Some("stderr")).unwrap();
    store.append_event("exec_ev", 2, "exit", r#"{"exit_code": 0}"#, None).unwrap();

    let events = store.get_events("exec_ev", 0).unwrap();
    assert_eq!(events.len(), 3);
    assert_eq!(events[0].event_type, "log");
    assert_eq!(events[0].stream, Some("stdout".into()));
    assert_eq!(events[2].event_type, "exit");

    // since_seq filter
    let events = store.get_events("exec_ev", 1).unwrap();
    assert_eq!(events.len(), 2);
}

#[test]
fn test_env_roundtrip() {
    let mut store = Store::new();
    let mut env = HashMap::new();
    env.insert("FOO".to_string(), "bar".to_string());
    env.insert("BAZ".to_string(), "qux".to_string());
    store
        .create_box("box_env", None, "ubuntu:24.04", 2, 1024, 8, false, "/root", &Some(env.clone()), &None)
        .unwrap();
    let fetched = store.get_box("box_env").unwrap().unwrap();
    assert_eq!(fetched.env, Some(env));
}

#[test]
fn test_gc_stopped_boxes() {
    let mut store = Store::new();
    new_box(&mut store, "box_gc", None);
    let old_time = "2020-01-01T00:00:00+00:00".to_string();
    store
        .update_box(
            "box_gc",
            &[("status", BoxValue::Text("stopped".into())), ("stopped_at", BoxValue::Text(old_time))],
        )
        .unwrap();
    let ids = store.gc_stopped_boxes(3600).unwrap();
    assert_eq!(ids, vec!["box_gc"]);
}

#[test]
fn listing_is_newest_first_and_filtered() {
    let mut store = Store::new();
    store.create_box_at("box_a", None, "img", 1, 1, 1, false, "/", &None, &None, "2024-01-01T00:00:00+00:00").unwrap();
    store.create_box_at("box_b", None, "img", 1, 1, 1, false, "/", &None, &None, "2024-03-01T00:00:00+00:00").unwrap();
    store.create_box_at("box_c", None, "img", 1, 1, 1, false, "/", &None, &None, "2024-02-01T00:00:00+00:00").unwrap();
    store.update_box("box_c", &[("status", BoxValue::Text("running".into()))]).unwrap();
    let all: Vec<String> = store.list_boxes(None).unwrap().into_iter().map(|b| b.id).collect();
    assert_eq!(all, vec!["box_b", "box_c", "box_a"]);
    let all2: Vec<String> = store.list_boxes(Some("all")).unwrap().into_iter().map(|b| b.id).collect();
    assert_eq!(all2, all);
    let running: Vec<String> = store.list_boxes(Some("running")).unwrap().into_iter().map(|b| b.id).collect();
    assert_eq!(running, vec!["box_c"]);
}

#[test]
fn delete_removes_executions_and_events() {
    let mut store = Store::new();
    new_box(&mut store, "box_x", None);
    new_box(&mut store, "box_y", None);
    store.create_exec("exec_x", "box_x", &["ls".into()], &None, None, None).unwrap();
    store.create_exec("exec_y", "box_y", &["ls".into()], &None, None, None).unwrap();
    store.append_event("exec_x", 0, "log", "x", Some("stdout")).unwrap();
    store.append_event("exec_y", 0, "log", "y", Some("stdout")).unwrap();
    store.delete_box("box_x").unwrap();
    assert!(store.get_exec("exec_x").unwrap().is_none());
    assert!(store.get_events("exec_x", 0).unwrap().is_empty());
    assert_eq!(store.get_events("exec_y", 0).unwrap().len(), 1);
    assert!(store.get_box("box_y").unwrap().is_some());
}

#[test]
fn update_refusals() {
    let mut store = Store::new();
    new_box(&mut store, "box_u", None);
    assert_eq!(
        store.update_box("box_u", &[("color", BoxValue::Text("red".into()))]).unwrap_err(),
        "Invalid column: color"
    );
    assert!(store.update_box("box_u", &[("cpu", BoxValue::Text("four".into()))]).is_err());
    assert!(store.update_box("missing", &[("status", BoxValue::Text("x".into()))]).is_err());
    let row = store.update_box("box_u", &[("cpu", BoxValue::Int(4)), ("network", BoxValue::Bool(true))]).unwrap();
    assert_eq!(row.cpu, 4);
    assert!(row.network);
}

#[test]
fn exec_needs_its_box() {
    let mut store = Store::new();
    assert!(store.create_exec("exec_1", "nobox", &["ls".into()], &None, None, None).is_err());
    new_box(&mut store, "box_1", None);
    store.create_exec("exec_1", "box_1", &["ls".into()], &None, Some("/tmp"), Some(500)).unwrap();
    assert!(store.create_exec("exec_1", "box_1", &["ls".into()], &None, None, None).is_err());
    let listed = store.list_execs("box_1").unwrap();
    assert_eq!(listed.len(), 1);
    assert_eq!(listed[0].workdir, Some("/tmp".to_string()));
    assert_eq!(listed[0].timeout_ms, Some(500));
}

#[test]
fn finish_with_error_fails() {
    let mut store = Store::new();
    new_box(&mut store, "box_1", None);
    store.create_exec("exec_1", "box_1", &["ls".into()], &None, None, None).unwrap();
    let row = store.finish_exec("exec_1", 0, Some("boom")).unwrap();
    assert_eq!(row.status, "failed");
    assert_eq!(row.error_message, Some("boom".to_string()));
    assert!(row.finished_at.is_some());
}

#[test]
fn duplicate_id_refused() {
    let mut store = Store::new();
    new_box(&mut store, "box_1", None);
    let err = store.create_box("box_1", None, "ubuntu:24.04", 2, 1024, 8, false, "/root", &None, &None).unwrap_err();
    assert_eq!(err, "UNIQUE constraint failed: boxes.id");
    assert_eq!(store.list_boxes(None).unwrap().len(), 1);
}

#[test]
fn update_converts_to_column_kinds() {
    let mut store = Store::new();
    new_box(&mut store, "box_k", None);
    let row = store
        .update_box(
            "box_k",
            &[
                ("error_code", BoxValue::Int(-42)),
                ("boxlite_id", BoxValue::Bool(true)),
                ("memory_mb", BoxValue::Text("2048".into())),
                ("network", BoxValue::Text("0".into())),
                ("env", BoxValue::Int(5)),
            ],
        )
        .unwrap();
    assert_eq!(row.error_code, Some("-42".to_string()));
    assert_eq!(row.boxlite_id, Some("1".to_string()));
    assert_eq!(row.memory_mb, 2048);
    assert!(!row.network);
    assert!(row.env.is_none());
    let row = store.update_box("box_k", &[("status", BoxValue::Int(7))]).unwrap();
    assert_eq!(row.status, "7");
}

#[test]
fn update_null_rules() {
    let mut store = Store::new();
    new_box(&mut store, "box_n", None);
    // The last update of a column wins.
    let row = store
        .update_box("box_n", &[("status", BoxValue::Null), ("status", BoxValue::Text("running".into()))])
        .unwrap();
    assert_eq!(row.status, "running");
    // The first required column in the table's order is named.
    assert_eq!(
        store.update_box("box_n", &[("workdir", BoxValue::Null), ("image", BoxValue::Null)]).unwrap_err(),
        "NOT NULL constraint failed: boxes.image"
    );
    assert_eq!(store.get_box("box_n").unwrap().unwrap().workdir, "/root");
    // No row is written for a missing box, so nothing fails but the lookup.
    assert_eq!(
        store.update_box("missing", &[("status", BoxValue::Null)]).unwrap_err(),
        "Box 'missing' not found"
    );
    // A list in a text column cannot be held.
    assert_eq!(
        store.update_box("box_n", &[("status", BoxValue::Volumes(Some(vec![])))]).unwrap_err(),
        "Invalid value for column: status"
    );
    let row = store.update_box("box_n", &[("boxlite_id", BoxValue::Env(None))]).unwrap();
    assert!(row.boxlite_id.is_none());
}

#[test]
fn restored_events_keep_their_ids() {
    let mut store = Store::new();
    new_box(&mut store, "box_e", None);
    store.create_exec("exec_e", "box_e", &["ls".into()], &None, None, None).unwrap();
    let ev = EventRow {
        id: 41,
        exec_id: "exec_e".into(),
        seq: 0,
        event_type: "stdout".into(),
        stream: Some("stdout".into()),
        data: "hi".into(),
        created_at: "2024-01-01T00:00:00+00:00".into(),
    };
    store.restore_event_at(&ev).unwrap();
    assert_eq!(store.restore_event_at(&ev).unwrap_err(), "UNIQUE constraint failed: events.id");
    store.resume_event_ids(50);
    store.append_event("exec_e", 1, "exit", "{}", None).unwrap();
    let ids: Vec<i64> = store.get_events("exec_e", 0).unwrap().iter().map(|e| e.id).collect();
    assert_eq!(ids, vec![41, 51]);
}

#[test]
fn update_env_from_text() {
    let mut store = Store::new();
    new_box(&mut store, "box_j", None);
    let row = store.update_box("box_j", &[("env", BoxValue::Text("{\"A\":\"b\"}".into()))]).unwrap();
    let mut want = HashMap::new();
    want.insert("A".to_string(), "b".to_string());
    assert_eq!(row.env, Some(want));
    let row = store.update_box("box_j", &[("env", BoxValue::Text("not json".into()))]).unwrap();
    assert!(row.env.is_none());
    assert_eq!(
        store.update_box("box_j", &[("volumes", BoxValue::Text("[]".into()))]).unwrap_err(),
        "Invalid value for column: volumes"
    );
}
