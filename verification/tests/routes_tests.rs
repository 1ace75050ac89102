use boxrun::routes::{finished_stream, FinishedEnd};
use boxrun::events::Event;
use boxrun::routes::{
    collect_run_output, default_cols, default_rows, default_shell, default_term, exit_payload,
    force_requested, live_action, parse_exec_action, path_box_id, replay_events, synthesized_exit_seq,
    LiveAction,
};
use boxrun::store::{EventRow, Store};

fn row(seq: i64, event_type: &str, data: &str, stream: Option<&str>) -> EventRow {
    EventRow {
        id: seq + 1,
        exec_id: "exec_1".into(),
        seq,
        event_type: event_type.into(),
        stream: stream.map(|s| s.to_string()),
        data: data.into(),
        created_at: "2024-01-01T00:00:00+00:00".into(),
    }
}

#[test]
fn attach_defaults() {
    assert_eq!(default_shell(), "/bin/bash");
    assert_eq!(default_cols(), 80);
    assert_eq!(default_rows(), 24);
    assert_eq!(default_term(), "xterm-256color");
}

#[test]
fn exec_actions_parse() {
    assert_eq!(parse_exec_action("exec_1:cancel"), Ok("exec_1".to_string()));
    assert_eq!(parse_exec_action("exec_1:pause"), Err("Unknown action: pause".to_string()));
    assert_eq!(parse_exec_action("exec_1"), Err("Missing action (expected :cancel)".to_string()));
}

#[test]
fn path_ids_drop_actions() {
    assert_eq!(path_box_id("box_1"), "box_1");
    assert_eq!(path_box_id("box_1:stop"), "box_1");
    assert_eq!(path_box_id("a:b:c"), "a");
    assert_eq!(path_box_id(""), "");
}

#[test]
fn force_only_when_true() {
    assert!(force_requested(Some("true")));
    assert!(!force_requested(Some("1")));
    assert!(!force_requested(Some("True")));
    assert!(!force_requested(None));
}

#[test]
fn run_output_collects_streams_and_exit_code() {
    let events = vec![
        row(0, "log", "hello ", Some("stdout")),
        row(1, "log", "oops\n", Some("stderr")),
        row(2, "log", "world\n", Some("stdout")),
        row(3, "log", "ignored", None),
        row(4, "exit", "{\"exit_code\": 3}", None),
    ];
    let out = collect_run_output(&events);
    assert_eq!(out.stdout, "hello world\n");
    assert_eq!(out.stderr, "oops\n");
    assert_eq!(out.exit_code, Some(3));
    assert!(out.error_message.is_none());
}

#[test]
fn run_output_exit_code_from_readable_exit_events() {
    // An unreadable exit event leaves the code as it was; a readable one
    // without a code clears it.
    let out = collect_run_output(&[row(0, "exit", "{\"exit_code\":7}", None), row(1, "exit", "not json", None)]);
    assert_eq!(out.exit_code, Some(7));
    let out = collect_run_output(&[row(0, "exit", "{\"exit_code\":7}", None), row(1, "exit", "{}", None)]);
    assert_eq!(out.exit_code, None);
    let out = collect_run_output(&[]);
    assert_eq!((out.stdout.as_str(), out.stderr.as_str(), out.exit_code), ("", "", None));
}

#[test]
fn replay_stops_at_exit_and_notes_numbers() {
    let past = vec![row(0, "log", "a", Some("stdout")), row(1, "exit", "{}", None), row(2, "log", "late", None)];
    let mut seen = Vec::new();
    let (sent, ended) = replay_events(&mut seen, &past, false);
    assert!(ended);
    assert_eq!(sent.iter().map(|e| e.seq).collect::<Vec<_>>(), vec![0, 1]);
    assert_eq!(seen, vec![0, 1]);
}

#[test]
fn late_replay_skips_what_was_sent() {
    let mut seen = vec![0, 1];
    let late = vec![row(0, "log", "a", None), row(1, "log", "b", None), row(2, "log", "c", None)];
    let (sent, ended) = replay_events(&mut seen, &late, true);
    assert!(!ended);
    assert_eq!(sent.len(), 1);
    assert_eq!(sent[0].data, "c");
    assert_eq!(seen, vec![0, 1, 2]);
    assert_eq!(synthesized_exit_seq(&seen), 3);
    assert_eq!(synthesized_exit_seq(&Vec::new()), 0);
    assert_eq!(synthesized_exit_seq(&vec![5, 2, 9, 1]), 10);
}

#[test]
fn live_events_are_deduplicated() {
    let seen = vec![0, 1];
    let ev = |seq: i64, t: &str| Event { seq, event_type: t.into(), data: String::new(), stream: None };
    assert_eq!(live_action(&seen, &ev(1, "log")), LiveAction::Skip);
    assert_eq!(live_action(&seen, &ev(2, "log")), LiveAction::Send);
    assert_eq!(live_action(&seen, &ev(3, "exit")), LiveAction::SendAndEnd);
    assert_eq!(live_action(&seen, &ev(0, "exit")), LiveAction::Skip);
}

#[test]
fn exit_payloads() {
    assert_eq!(exit_payload(Some(0)), "{\"exit_code\":0}");
    assert_eq!(exit_payload(Some(-2)), "{\"exit_code\":-2}");
    assert_eq!(exit_payload(None), "{\"exit_code\":null}");
}

#[test]
fn stored_events_replay_in_sequence() {
    let mut store = Store::new();
    store.create_box("box_1", None, "img", 1, 1, 1, false, "/", &None, &None).unwrap();
    store.create_exec("exec_1", "box_1", &["ls".into()], &None, None, None).unwrap();
    store.append_event("exec_1", 1, "log", "second", Some("stdout")).unwrap();
    store.append_event("exec_1", 0, "log", "first", Some("stdout")).unwrap();
    store.append_event("exec_1", 2, "exit", "{\"exit_code\":0}", None).unwrap();
    let events = store.get_events("exec_1", 0).unwrap();
    let mut seen = Vec::new();
    let (sent, ended) = replay_events(&mut seen, &events, false);
    assert!(ended);
    assert_eq!(sent.iter().map(|e| e.data.as_str()).collect::<Vec<_>>(), vec!["first", "second", "{\"exit_code\":0}"]);
}

#[test]
fn finished_stream_ends() {
    let row = |seq: i64, t: &str| EventRow {
        id: seq + 1,
        exec_id: "exec_1".into(),
        seq,
        event_type: t.into(),
        stream: None,
        data: "x".into(),
        created_at: "t".into(),
    };
    let mut seen = vec![0];
    let (sent, end) = finished_stream(&mut seen, &[row(0, "stdout"), row(1, "stdout")], Some(3));
    assert_eq!(sent.len(), 1);
    assert_eq!(sent[0].seq, 1);
    match end {
        FinishedEnd::Exit(q, d) => {
            assert_eq!(q, 2);
            assert_eq!(d, "{\"exit_code\":3}");
        }
        other => panic!("unexpected {other:?}"),
    }
    let mut seen = vec![];
    let (sent, end) = finished_stream(&mut seen, &[row(0, "exit")], None);
    assert_eq!(sent.len(), 1);
    assert!(matches!(end, FinishedEnd::ExitSent));
    let mut seen = vec![i64::MAX];
    let (_, end) = finished_stream(&mut seen, &[], None);
    assert!(matches!(end, FinishedEnd::Overflow));
}
