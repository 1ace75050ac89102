use boxrun::box_manager::BoxManager;
use boxrun::error::ErrorCode;
use boxrun::events::{Event, EventBus};
use boxrun::store::{EventRow, Store};
use boxrun::stream::open_stream;

fn manager_with_exec() -> (BoxManager, String) {
    let mut m = BoxManager::new(Store::new(), EventBus::new(), 8, 8192);
    let b = m.create_box("ubuntu:24.04", None, 2, 1024, 8, false, "/root", &None, &None).unwrap();
    let x = m.exec_in_box(&b.id, &["ls".to_string()], &None, None, None).unwrap();
    (m, x.id)
}

fn row(seq: i64, event_type: &str) -> EventRow {
    EventRow {
        id: seq + 1,
        exec_id: "e".into(),
        seq,
        event_type: event_type.into(),
        stream: Some("stdout".into()),
        data: format!("d{seq}"),
        created_at: "t".into(),
    }
}

fn live(seq: i64, event_type: &str) -> Event {
    Event { seq, event_type: event_type.into(), data: format!("l{seq}"), stream: None }
}

#[test]
fn unknown_execution_is_refused() {
    let mut m = BoxManager::new(Store::new(), EventBus::new(), 8, 8192);
    let e = open_stream(&mut m, "exec_missing").err().unwrap();
    assert_eq!(e.code, ErrorCode::ExecNotFound);
}

#[test]
fn stored_then_live_until_exit() {
    let (mut m, exec_id) = manager_with_exec();
    let (mut es, _sub) = open_stream(&mut m, &exec_id).ok().unwrap();
    // Live events are ignored until the stored ones are replayed.
    assert!(es.on_live(&live(9, "log")).is_empty());
    let sent = es.on_stored(&[row(0, "log"), row(1, "log")]);
    assert_eq!(sent.iter().map(|f| f.seq).collect::<Vec<_>>(), vec![0, 1]);
    assert!(!es.is_ended());
    es.on_running();
    // A number already sent from the store is not sent again.
    assert!(es.on_live(&live(1, "log")).is_empty());
    assert_eq!(es.on_live(&live(2, "log")).len(), 1);
    let last = es.on_live(&live(3, "exit"));
    assert_eq!(last[0].event_type, "exit");
    assert!(es.is_ended());
    // Nothing follows the exit event.
    assert!(es.on_live(&live(4, "log")).is_empty());
    assert!(es.on_stored(&[row(5, "log")]).is_empty());
}

#[test]
fn finished_execution_gets_an_exit() {
    let (mut m, exec_id) = manager_with_exec();
    let (mut es, _sub) = open_stream(&mut m, &exec_id).ok().unwrap();
    es.on_stored(&[row(0, "log")]);
    let (frames, overflow) = es.on_finished(&[row(0, "log"), row(1, "log")], Some(5));
    assert!(!overflow);
    assert_eq!(frames.len(), 2);
    assert_eq!(frames[0].seq, 1);
    assert_eq!(frames[1].event_type, "exit");
    assert_eq!(frames[1].seq, 2);
    assert_eq!(frames[1].data, "{\"exit_code\":5}");
    assert!(es.is_ended());
}

#[test]
fn stored_exit_ends_at_once() {
    let (mut m, exec_id) = manager_with_exec();
    let (mut es, _sub) = open_stream(&mut m, &exec_id).ok().unwrap();
    let sent = es.on_stored(&[row(0, "log"), row(1, "exit"), row(2, "log")]);
    assert_eq!(sent.len(), 2);
    assert!(es.is_ended());
}
