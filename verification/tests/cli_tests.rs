use boxrun::cli::{
    box_table_header, box_table_row, created_short, error_report, frame_fields, image_table,
    is_remote_path, normalize_newlines, parse_volume, plan_copy, stream_output, take_frames,
    timeout_ms_of, CopyPlan, StreamOutput,
};

#[test]
fn volumes_parse() {
    let v = parse_volume("/host:/guest").unwrap();
    assert_eq!((v.host_path.as_str(), v.guest_path.as_str(), v.readonly), ("/host", "/guest", false));
    assert!(parse_volume("/a:/b:ro").unwrap().readonly);
    assert!(!parse_volume("/a:/b:rw").unwrap().readonly);
}

#[test]
fn volume_errors() {
    assert_eq!(parse_volume("/only").unwrap_err(), "Invalid volume format: \"/only\" (expected /host:/guest[:ro])");
    assert_eq!(parse_volume("/a:/b:ro:x").unwrap_err(), "Invalid volume format: \"/a:/b:ro:x\" (expected /host:/guest[:ro])");
    assert_eq!(parse_volume(":/b").unwrap_err(), "Host path cannot be empty in volume: \":/b\"");
    assert_eq!(parse_volume("/a:").unwrap_err(), "Guest path cannot be empty in volume: \"/a:\"");
    assert_eq!(parse_volume("a:/b").unwrap_err(), "Host path must be absolute: \"a\"");
    assert_eq!(parse_volume("/a:b").unwrap_err(), "Guest path must be absolute: \"b\"");
    assert_eq!(parse_volume("/a:/b:rx").unwrap_err(), "Invalid volume mode: \"rx\" (expected 'ro' or 'rw')");
    assert_eq!(parse_volume("/a\"q:b").unwrap_err(), "Guest path must be absolute: \"b\"");
    assert_eq!(parse_volume("q\"a:/b").unwrap_err(), "Host path must be absolute: \"q\\\"a\"");
}

#[test]
fn remote_paths() {
    assert!(is_remote_path("mybox:/root/file"));
    assert!(is_remote_path(":x"));
    assert!(!is_remote_path("/local/file"));
    assert!(!is_remote_path("./a:b"));
    assert!(!is_remote_path("/a:b"));
    assert!(!is_remote_path("nocolon"));
}

#[test]
fn copy_plans() {
    match plan_copy("mybox:/root/a.txt", "/tmp/a.txt") {
        CopyPlan::Download { box_part, remote } => {
            assert_eq!(box_part, "mybox");
            assert_eq!(remote, "/root/a.txt");
        }
        _ => panic!("expected a download"),
    }
    match plan_copy("./a.txt", "mybox:/root/a:b") {
        CopyPlan::Upload { box_part, remote } => {
            assert_eq!(box_part, "mybox");
            assert_eq!(remote, "/root/a:b");
        }
        _ => panic!("expected an upload"),
    }
    assert!(matches!(plan_copy("/a", "/b"), CopyPlan::Invalid));
}

#[test]
fn timeouts_in_milliseconds() {
    assert_eq!(timeout_ms_of(Some(5)), Some(5000));
    assert_eq!(timeout_ms_of(None), None);
}

#[test]
fn error_reports() {
    assert_eq!(error_report(200, "{}"), None);
    assert_eq!(error_report(404, r#"{"code":"BOX_NOT_FOUND","message":"gone"}"#), Some("Error: [BOX_NOT_FOUND] gone".to_string()));
    assert_eq!(error_report(400, "[1]"), Some("Error: [UNKNOWN] [1]".to_string()));
    assert_eq!(error_report(500, "oops"), Some("Error: 500 oops".to_string()));
}

#[test]
fn listing_lines() {
    assert_eq!(created_short("2024-01-02T03:04:05.123456+00:00"), "2024-01-02T03:04:05");
    assert_eq!(created_short("2024-01-02"), "2024-01-02");
    let header = box_table_header();
    let expected = format!(
        "{:<20} {:<15} {:<12} {:<25} {:>4} {:>8} {:>6} {:<20}",
        "ID", "NAME", "STATUS", "IMAGE", "CPU", "MEM", "DISK", "CREATED"
    );
    assert_eq!(header, expected);
    let line = box_table_row("box_abc", "web", "running", "ubuntu:24.04", 2, 1024, 8, "2024-01-02T03:04:05+00:00");
    let expected = format!(
        "{:<20} {:<15} {:<12} {:<25} {:>4} {:>7}MB {:>5}G {:<20}",
        "box_abc", "web", "running", "ubuntu:24.04", 2, 1024, 8, "2024-01-02T03:04:05"
    );
    assert_eq!(line, expected);
}

#[test]
fn image_lines() {
    let lines = image_table();
    assert_eq!(lines.len(), 9);
    assert_eq!(lines[0], format!("{:<12} {:<25} {}", "ALIAS", "IMAGE", "DESCRIPTION"));
    assert_eq!(lines[1], "-".repeat(lines[0].len()));
    assert_eq!(lines[4], format!("{:<12} {:<25} {}", "python", "python:3.12-slim", "Python 3.12 pre-installed"));
}

#[test]
fn stream_frames() {
    let buf = normalize_newlines("event: log\r\ndata: {\"a\":1}\r\n\r\nevent: exit\ndata: x\n\npartial");
    assert_eq!(buf, "event: log\ndata: {\"a\":1}\n\nevent: exit\ndata: x\n\npartial");
    let (frames, rest) = take_frames(&buf);
    assert_eq!(frames, vec!["event: log\ndata: {\"a\":1}".to_string(), "event: exit\ndata: x".to_string()]);
    assert_eq!(rest, "partial");
    assert_eq!(normalize_newlines("a\r\r\nb\r"), "a\r\nb\r");
}

#[test]
fn frame_fields_read() {
    assert_eq!(
        frame_fields("  event:  log \ndata: one\ndata:two  \n"),
        Some((Some("log".to_string()), "one\ntwo".to_string()))
    );
    assert_eq!(frame_fields("event: a\nevent: b\ndata: x"), Some((Some("b".to_string()), "x".to_string())));
    assert_eq!(frame_fields("data: x"), Some((None, "x".to_string())));
    assert_eq!(frame_fields("event: keepalive"), None);
    assert_eq!(frame_fields(": comment"), None);
}

#[test]
fn stream_outputs() {
    assert!(matches!(stream_output(Some("log"), r#"{"stream":"stdout","data":"hi","seq":0}"#), StreamOutput::Stdout(t) if t == "hi"));
    assert!(matches!(stream_output(Some("log"), r#"{"stream":"stderr","data":"bad","seq":1}"#), StreamOutput::Stderr(t) if t == "bad"));
    assert!(matches!(stream_output(Some("log"), r#"{"data":"x"}"#), StreamOutput::Stdout(t) if t == "x"));
    assert!(matches!(stream_output(Some("exit"), r#"{"stream":null,"data":"{\"exit_code\":3}","seq":2}"#), StreamOutput::Exit(3)));
    assert!(matches!(stream_output(Some("exit"), r#"{"data":"garbage"}"#), StreamOutput::Exit(0)));
    assert!(matches!(stream_output(Some("exit"), "{}"), StreamOutput::Exit(0)));
    assert!(matches!(stream_output(Some("log"), "not json"), StreamOutput::Skip));
    assert!(matches!(stream_output(None, "{}"), StreamOutput::Skip));
    assert!(matches!(stream_output(Some("ping"), "{}"), StreamOutput::Skip));
}

#[test]
fn created_short_cuts_bytes() {
    // Seventeen ASCII bytes and a two-byte character make nineteen bytes.
    assert_eq!(created_short("abcdefghijklmnopqéxyz"), "abcdefghijklmnopqé");
    // Fewer than nineteen bytes stay whole.
    assert_eq!(created_short("ééé"), "ééé");
    assert_eq!(created_short("2024-01-02T03:04:05"), "2024-01-02T03:04:05");
}
