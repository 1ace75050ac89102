use boxrun::answers::{
    action_line, answer_id, attach_control, created_lines, cut_fits, exec_started, gc_line, listing_lines,
    run_outputs, AttachControl,
};
use boxrun::error::ErrorCode;
use boxrun::routes::attach_refusal;
use boxrun::store::{BoxValue, Store};

#[test]
fn created_box_lines() {
    let body = r#"{"id":"box_1","name":"web","status":"running","cpu":2}"#;
    assert_eq!(created_lines(body), vec!["box_1", "Name: web", "Status: running"]);
    assert_eq!(created_lines(r#"{"id":"box_2","name":null}"#), vec!["box_2"]);
    assert!(created_lines("not json").is_empty());
    assert_eq!(answer_id(body), Some("box_1".to_string()));
    assert_eq!(answer_id(r#"{"id":5}"#), None);
}

#[test]
fn stop_and_start_lines() {
    assert_eq!(action_line("Stopped", r#"{"id":"box_9"}"#), Some("Stopped box_9".to_string()));
    assert_eq!(action_line("Started", "{}"), None);
}

#[test]
fn started_exec() {
    assert_eq!(
        exec_started(r#"{"id":"exec_1","box_id":"box_1"}"#, "web"),
        ("exec_1".to_string(), "box_1".to_string())
    );
    assert_eq!(exec_started("{}", "web"), (String::new(), "web".to_string()));
}

#[test]
fn run_and_gc_answers() {
    assert_eq!(
        run_outputs(r#"{"stdout":"hi\n","stderr":"","exit_code":3}"#),
        ("hi\n".to_string(), String::new(), 3)
    );
    assert_eq!(run_outputs("[]"), (String::new(), String::new(), 0));
    assert_eq!(gc_line(r#"{"removed":4}"#), "Removed 4 box(es)");
    assert_eq!(gc_line("oops"), "Removed 0 box(es)");
}

#[test]
fn control_messages() {
    assert!(matches!(attach_control(r#"{"type":"exit","code":7}"#), AttachControl::Exit(7)));
    assert!(matches!(attach_control(r#"{"type":"exit"}"#), AttachControl::Exit(0)));
    match attach_control(r#"{"type":"error","message":"gone"}"#) {
        AttachControl::Error(m) => assert_eq!(m, "gone"),
        other => panic!("unexpected {other:?}"),
    }
    match attach_control(r#"{"type":"error"}"#) {
        AttachControl::Error(m) => assert_eq!(m, "Unknown error"),
        other => panic!("unexpected {other:?}"),
    }
    assert!(matches!(attach_control(r#"{"type":"resize"}"#), AttachControl::Other));
    assert!(matches!(attach_control("{"), AttachControl::Other));
}

#[test]
fn listing() {
    let (lines, stopped) = listing_lines("[]");
    assert_eq!(lines, vec!["No boxes found."]);
    assert!(!stopped);
    assert_eq!(listing_lines("{}").0, vec!["No boxes found."]);
    let body = r#"[{"id":"box_abc","name":"web","status":"running","image":"ubuntu:24.04","cpu":2,"memory_mb":1024,"disk_size_gb":8,"created_at":"2024-01-02T03:04:05+00:00"},{"id":"box_x"}]"#;
    let (lines, stopped) = listing_lines(body);
    assert!(!stopped);
    assert_eq!(lines.len(), 4);
    assert!(lines[0].starts_with("ID"));
    assert_eq!(lines[1], "-".repeat(lines[0].len()));
    assert!(lines[2].starts_with("box_abc"));
    assert!(lines[2].contains("1024MB"));
    assert!(lines[2].ends_with("2024-01-02T03:04:05 "));
    assert!(lines[3].starts_with("box_x"));
    // A creation time whose 19th byte falls inside a character stops the listing.
    let body = r#"[{"id":"a","created_at":"2024-01-02T03:04:5é"},{"id":"b"}]"#;
    let (lines, stopped) = listing_lines(body);
    assert!(stopped);
    assert_eq!(lines.len(), 2);
    assert!(!cut_fits("2024-01-02T03:04:5é"));
    assert!(cut_fits("2024-01-02T03:04:é"));
}

#[test]
fn attach_refusals() {
    let mut store = Store::new();
    store.create_box("box_1", None, "ubuntu:24.04", 2, 1024, 8, false, "/root", &None, &None).unwrap();
    let found = store.get_box("box_1").unwrap().ok_or(());
    let found = found.map_err(|_| boxrun::error::BoxRunError::new(ErrorCode::BoxNotFound, "x"));
    let e = attach_refusal(&found).unwrap();
    assert_eq!(e.code, ErrorCode::BoxNotRunning);
    assert_eq!(e.message, "Box is not running");
    store.update_box("box_1", &[("status", BoxValue::Text("running".into()))]).unwrap();
    let found = Ok(store.get_box("box_1").unwrap().unwrap());
    let e = attach_refusal(&found).unwrap();
    assert_eq!(e.code, ErrorCode::RuntimeError);
    assert_eq!(e.message, "Box has no BoxLite ID");
    store.update_box("box_1", &[("boxlite_id", BoxValue::Text("bl_1".into()))]).unwrap();
    let found = Ok(store.get_box("box_1").unwrap().unwrap());
    assert!(attach_refusal(&found).is_none());
    let missing = Err(boxrun::error::BoxRunError::new(ErrorCode::BoxNotFound, "Box 'x' not found"));
    assert_eq!(attach_refusal(&missing).unwrap().message, "Box 'x' not found");
}
