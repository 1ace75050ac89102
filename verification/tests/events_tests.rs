use boxrun::events::{Event, EventBus, Received};

fn log_event(seq: i64, data: &str, stream: Option<&str>) -> Event {
    Event { seq, event_type: "log".into(), data: data.into(), stream: stream.map(|s| s.to_string()) }
}

#[test]
fn test_publish_subscribe() {
    let mut bus = EventBus::new();
    let sub = bus.subscribe("exec_1");
    bus.publish("exec_1", log_event(0, "hello", Some("stdout")));
    match sub.recv(&mut bus) {
        Received::Event(received) => {
            assert_eq!(received.seq, 0);
            assert_eq!(received.data, "hello");
            assert_eq!(received.stream, Some("stdout".into()));
        }
        _ => panic!("expected an event"),
    }
}

#[test]
fn test_finish_stream() {
    let mut bus = EventBus::new();
    let sub = bus.subscribe("exec_2");
    bus.publish("exec_2", log_event(0, "data", Some("stdout")));
    bus.finish("exec_2");
    match sub.recv(&mut bus) {
        Received::Event(event) => assert_eq!(event.data, "data"),
        _ => panic!("expected an event"),
    }
    assert!(matches!(sub.recv(&mut bus), Received::End));
}

#[test]
fn test_multiple_subscribers() {
    let mut bus = EventBus::new();
    let sub1 = bus.subscribe("exec_3");
    let sub2 = bus.subscribe("exec_3");
    bus.publish("exec_3", log_event(0, "shared", None));
    bus.finish("exec_3");
    match (sub1.recv(&mut bus), sub2.recv(&mut bus)) {
        (Received::Event(e1), Received::Event(e2)) => {
            assert_eq!(e1.data, "shared");
            assert_eq!(e2.data, "shared");
        }
        _ => panic!("expected events"),
    }
}

#[test]
fn test_no_subscribers() {
    let mut bus = EventBus::new();
    bus.publish("nonexistent", log_event(0, "dropped", None));
    bus.finish("nonexistent");
}

#[test]
fn test_subscription_cleanup() {
    let mut bus = EventBus::new();
    {
        let sub = bus.subscribe("exec_4");
        bus.unsubscribe(sub);
    }
    bus.publish("exec_4", log_event(0, "after_drop", None));
}

#[test]
fn events_arrive_in_order_then_end() {
    let mut bus = EventBus::new();
    let sub = bus.subscribe("exec_5");
    assert!(matches!(sub.recv(&mut bus), Received::Pending));
    for i in 0..3 {
        bus.publish("exec_5", log_event(i, &format!("line {i}"), Some("stdout")));
    }
    bus.finish("exec_5");
    for i in 0..3 {
        match sub.recv(&mut bus) {
            Received::Event(e) => {
                assert_eq!(e.seq, i);
                assert_eq!(e.data, format!("line {i}"));
            }
            _ => panic!("expected event {i}"),
        }
    }
    assert!(matches!(sub.recv(&mut bus), Received::End));
    assert!(matches!(sub.recv(&mut bus), Received::End));
}

#[test]
fn other_executions_are_untouched() {
    let mut bus = EventBus::new();
    let a = bus.subscribe("exec_a");
    let b = bus.subscribe("exec_b");
    bus.publish("exec_a", log_event(0, "for a", None));
    bus.finish("exec_a");
    assert!(matches!(b.recv(&mut bus), Received::Pending));
    assert!(matches!(a.recv(&mut bus), Received::Event(_)));
    assert!(matches!(a.recv(&mut bus), Received::End));
}

#[test]
fn late_subscriber_sees_only_later_events() {
    let mut bus = EventBus::new();
    bus.publish("exec_6", log_event(0, "early", None));
    let sub = bus.subscribe("exec_6");
    bus.publish("exec_6", log_event(1, "late", None));
    match sub.recv(&mut bus) {
        Received::Event(e) => assert_eq!(e.data, "late"),
        _ => panic!("expected the late event"),
    }
}

#[test]
fn dropped_subscription_ends() {
    let mut bus = EventBus::new();
    let sub = bus.subscribe("exec_7");
    let again = bus.subscribe("exec_7");
    bus.unsubscribe(sub);
    bus.publish("exec_7", log_event(0, "x", None));
    assert!(matches!(again.recv(&mut bus), Received::Event(_)));
    assert!(bus.can_subscribe());
}
