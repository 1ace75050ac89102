use boxrun::error::ErrorCode;
use boxrun::sdk::{
    check_answer, ends_stream, parse_sse_event, read_box, read_boxes, read_exec, read_removed, read_run_result, ExecEvent,
};

#[test]
fn test_parse_log_event() {
    let result = parse_sse_event("log", r#"{"stream":"stdout","data":"hello\n","seq":0}"#).unwrap().unwrap();
    assert_eq!(result.event_type, "log");
    assert_eq!(result.stream, Some("stdout".to_string()));
    assert_eq!(result.data, "hello\n");
    assert_eq!(result.seq, 0);
}

#[test]
fn test_parse_exit_event() {
    let result = parse_sse_event("exit", r#"{"stream":null,"data":"{\"exit_code\":0}","seq":2}"#).unwrap().unwrap();
    assert_eq!(result.event_type, "exit");
    assert!(result.stream.is_none());
    assert_eq!(result.seq, 2);
}

#[test]
fn test_parse_stderr_event() {
    let result = parse_sse_event("log", r#"{"stream":"stderr","data":"error msg","seq":1}"#).unwrap().unwrap();
    assert_eq!(result.event_type, "log");
    assert_eq!(result.stream, Some("stderr".to_string()));
    assert_eq!(result.data, "error msg");
    assert_eq!(result.seq, 1);
}

#[test]
fn test_parse_empty_data_returns_none() {
    assert!(parse_sse_event("", "").is_none());
}

#[test]
fn test_parse_malformed_json_returns_error() {
    let result = parse_sse_event("log", "not valid json{").unwrap();
    assert!(result.is_err());
    let e = result.unwrap_err();
    assert_eq!(e.code, ErrorCode::RuntimeError);
    assert!(e.message.starts_with("Failed to parse SSE event JSON: "));
}

#[test]
fn missing_members_take_defaults() {
    let ev = parse_sse_event("log", "{}").unwrap().unwrap();
    assert_eq!(ev.data, "");
    assert_eq!(ev.seq, 0);
    assert!(ev.stream.is_none());
}

#[test]
fn answers_are_judged() {
    assert!(check_answer(200, r#"{"id":"box_1"}"#).is_ok());
    assert!(check_answer(201, "[]").is_ok());
    let e = check_answer(404, r#"{"code":"BOX_NOT_FOUND","message":"Box 'x' not found"}"#).unwrap_err();
    assert_eq!(e.code, ErrorCode::RuntimeError);
    assert_eq!(e.message, "[BOX_NOT_FOUND] Box 'x' not found");
    let e = check_answer(409, r#"{"message":"busy"}"#).unwrap_err();
    assert_eq!(e.message, "[UNKNOWN] busy");
    let e = check_answer(400, r#"{"code":"X"}"#).unwrap_err();
    assert_eq!(e.message, r#"[X] {"code":"X"}"#);
    let e = check_answer(500, "boom").unwrap_err();
    assert_eq!(e.message, "HTTP 500: boom");
    let e = check_answer(502, "[1,2]").unwrap_err();
    assert_eq!(e.message, "HTTP 502: [1,2]");
    let e = check_answer(200, "<html>").unwrap_err();
    assert!(e.message.starts_with("Invalid JSON: "));
}

#[test]
fn exit_ends_the_stream() {
    let ev = |t: &str| ExecEvent { event_type: t.into(), data: String::new(), stream: None, seq: 0 };
    assert!(ends_stream(&ev("exit")));
    assert!(!ends_stream(&ev("log")));
}

#[test]
fn reads_box_and_exec_answers() {
    let b = read_box(r#"{"id":"box_1","name":"web","status":"running","image":"alpine","cpu":2,"memory_mb":512,"disk_size_gb":4,"created_at":"t"}"#);
    assert_eq!(b.id, "box_1");
    assert_eq!(b.name, Some("web".to_string()));
    assert_eq!(b.workdir, "/root");
    assert_eq!((b.cpu, b.memory_mb, b.disk_size_gb), (2, 512, 4));
    assert!(b.stopped_at.is_none());
    let list = read_boxes(r#"[{"id":"a"},{"id":"b","workdir":"/w"}]"#);
    assert_eq!(list.len(), 2);
    assert_eq!(list[1].workdir, "/w");
    assert!(read_boxes(r#"{"id":"a"}"#).is_empty());
    let x = read_exec(r#"{"id":"exec_1","box_id":"box_1","status":"completed","exit_code":0,"timeout_ms":500}"#);
    assert_eq!(x.id, "exec_1");
    assert_eq!(x.exit_code, Some(0));
    assert_eq!(x.timeout_ms, Some(500));
    assert!(x.workdir.is_none());
    let r = read_run_result(r#"{"stdout":"out","stderr":"err","exit_code":2,"error_message":null}"#);
    assert_eq!((r.stdout.as_str(), r.stderr.as_str(), r.exit_code), ("out", "err", Some(2)));
    assert!(r.error_message.is_none());
    assert_eq!(read_removed(r#"{"removed":3}"#), 3);
    assert_eq!(read_removed("{}"), 0);
}
