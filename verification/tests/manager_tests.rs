use boxrun::box_manager::BoxManager;
use boxrun::config::{max_total_cpu, max_total_memory_mb};
use boxrun::error::ErrorCode;
use boxrun::events::{EventBus, Received};
use boxrun::models::{CreateBoxRequest, ExecRequest, RunRequest, ServerInfo, Volume};
use boxrun::routes::{collect_run_output, parse_box_action, BoxAction};
use boxrun::store::{BoxValue, Store};

fn manager(store: Store) -> BoxManager {
    BoxManager::new(store, EventBus::new(), 8, 8192)
}

/// A store with a box recorded directly, in the given status.
fn seeded(boxes: &[(&str, Option<&str>, &str)]) -> Store {
    let mut store = Store::new();
    for (id, name, status) in boxes {
        store.create_box(id, *name, "ubuntu:24.04", 2, 1024, 8, false, "/root", &None, &None).unwrap();
        store.update_box(id, &[("status", BoxValue::Text(status.to_string()))]).unwrap();
    }
    store
}

fn seed_exec(store: &mut Store, exec_id: &str, box_id: &str, status: &str, exit_code: Option<i64>) {
    store.create_exec(exec_id, box_id, &["echo".into(), "hello".into()], &None, None, None).unwrap();
    if status != "running" {
        store.finish_exec(exec_id, exit_code.unwrap_or(0), None).unwrap();
    }
}

fn create(m: &mut BoxManager, name: Option<&str>) -> String {
    m.create_box("ubuntu:24.04", name, 2, 1024, 8, false, "/root", &None, &None).unwrap().id
}

#[test]
fn test_server_info() {
    let info = ServerInfo { max_cpu: max_total_cpu(None), max_memory_mb: max_total_memory_mb(None, None, None) };
    assert!(info.max_cpu > 0);
    assert!(info.max_memory_mb > 0);
}

#[test]
fn test_create_box_validation_zero_cpu() {
    let req = CreateBoxRequest {
        image: "ubuntu:24.04".into(), name: None, cpu: 0, memory_mb: 1024, disk_size_gb: 8,
        network: false, workdir: "/root".into(), env: None, volumes: None,
    };
    assert!(req.validate().is_err());
}

#[test]
fn test_create_box_validation_bad_memory() {
    let req = CreateBoxRequest {
        image: "ubuntu:24.04".into(), name: None, cpu: 2, memory_mb: -1, disk_size_gb: 8,
        network: false, workdir: "/root".into(), env: None, volumes: None,
    };
    assert!(req.validate().is_err());
}

#[test]
fn test_create_box_validation_bad_workdir() {
    let req = CreateBoxRequest {
        image: "ubuntu:24.04".into(), name: None, cpu: 2, memory_mb: 1024, disk_size_gb: 8,
        network: false, workdir: "relative".into(), env: None, volumes: None,
    };
    assert!(req.validate().is_err());
}

#[test]
fn test_exec_validation_empty_cmd() {
    assert!(ExecRequest { cmd: vec![], env: None, workdir: None, timeout_ms: None }.validate().is_err());
}

#[test]
fn test_exec_validation_bad_workdir() {
    let req = ExecRequest { cmd: vec!["ls".into()], env: None, workdir: Some("relative".into()), timeout_ms: None };
    assert!(req.validate().is_err());
}

#[test]
fn test_exec_validation_bad_timeout() {
    let req = ExecRequest { cmd: vec!["ls".into()], env: None, workdir: None, timeout_ms: Some(-1) };
    assert!(req.validate().is_err());
}

#[test]
fn test_run_validation_empty_cmd() {
    let req = RunRequest {
        image: "ubuntu:24.04".into(), cmd: vec![], cpu: 2, memory_mb: 1024, disk_size_gb: 8,
        network: false, env: None, volumes: None, timeout_ms: None,
    };
    assert!(req.validate().is_err());
}

#[test]
fn test_get_box_not_found() {
    let m = manager(Store::new());
    let e = m.get_box("nonexistent").unwrap_err();
    assert_eq!(e.code, ErrorCode::BoxNotFound);
    assert_eq!(e.http_status(), 404);
    assert_eq!(e.message, "Box 'nonexistent' not found");
}

#[test]
fn test_stop_box_not_found() {
    let mut m = manager(Store::new());
    let e = m.stop_box("nonexistent").unwrap_err();
    assert_eq!(e.code, ErrorCode::BoxNotFound);
    assert_eq!(e.http_status(), 404);
}

#[test]
fn test_remove_box_not_found() {
    let mut m = manager(Store::new());
    let e = m.remove_box("nonexistent", false).unwrap_err();
    assert_eq!(e.code, ErrorCode::BoxNotFound);
    assert_eq!(e.http_status(), 404);
}

#[test]
fn test_get_exec_not_found() {
    let m = manager(seeded(&[("box_1", None, "running")]));
    let e = m.get_exec("nonexistent").unwrap_err();
    assert_eq!(e.code, ErrorCode::ExecNotFound);
    assert_eq!(e.http_status(), 404);
}

#[test]
fn test_cancel_exec_not_found() {
    let mut m = manager(seeded(&[("box_1", None, "running")]));
    let e = m.cancel_exec("nonexistent").unwrap_err();
    assert_eq!(e.code, ErrorCode::ExecNotFound);
    assert_eq!(e.http_status(), 404);
}

#[test]
fn test_stop_box_not_running() {
    let mut m = manager(seeded(&[("box_1", None, "stopped")]));
    let e = m.stop_box("box_1").unwrap_err();
    assert_eq!(e.code, ErrorCode::BoxNotRunning);
    assert_eq!(e.http_status(), 400);
    assert_eq!(e.message, "Box 'box_1' is not running (status: stopped)");
}

#[test]
fn test_start_box_already_running() {
    let mut m = manager(seeded(&[("box_1", None, "running")]));
    let e = m.start_box("box_1").unwrap_err();
    assert_eq!(e.code, ErrorCode::BoxAlreadyRunning);
    assert_eq!(e.http_status(), 409);
}

#[test]
fn test_remove_running_box_no_force() {
    let mut m = manager(seeded(&[("box_1", None, "running")]));
    let e = m.remove_box("box_1", false).unwrap_err();
    assert_eq!(e.code, ErrorCode::BoxAlreadyRunning);
    assert_eq!(e.http_status(), 409);
    assert!(m.get_box("box_1").is_ok());
}

#[test]
fn test_cancel_exec_already_finished() {
    let mut store = seeded(&[("box_1", None, "running")]);
    seed_exec(&mut store, "exec_1", "box_1", "succeeded", Some(0));
    let mut m = manager(store);
    let e = m.cancel_exec("exec_1").unwrap_err();
    assert_eq!(e.code, ErrorCode::ExecAlreadyFinished);
    assert_eq!(e.http_status(), 400);
}

#[test]
fn test_exec_box_not_running() {
    let mut m = manager(seeded(&[("box_1", None, "stopped")]));
    let e = m.exec_in_box("box_1", &["ls".into()], &None, None, None).unwrap_err();
    assert_eq!(e.code, ErrorCode::BoxNotRunning);
    assert_eq!(e.http_status(), 400);
}

#[test]
fn test_unknown_box_action() {
    let e = parse_box_action("box_1:unknown").unwrap_err();
    assert!(e.contains("Unknown action"));
}

#[test]
fn test_missing_box_action() {
    let e = parse_box_action("box_1").unwrap_err();
    assert!(e.contains("Missing action"));
}

#[test]
fn test_list_boxes_empty() {
    let m = manager(Store::new());
    assert_eq!(m.list_boxes(None).unwrap().len(), 0);
}

#[test]
fn test_list_boxes_with_data() {
    let m = manager(seeded(&[("box_1", Some("alpha"), "running"), ("box_2", Some("beta"), "stopped")]));
    assert_eq!(m.list_boxes(None).unwrap().len(), 2);
}

#[test]
fn test_list_boxes_status_filter() {
    let m = manager(seeded(&[("box_1", None, "running"), ("box_2", None, "stopped")]));
    let arr = m.list_boxes(Some("running")).unwrap();
    assert_eq!(arr.len(), 1);
    assert_eq!(arr[0].status, "running");
}

#[test]
fn test_get_box_by_id() {
    let m = manager(seeded(&[("box_123", Some("mybox"), "running")]));
    let b = m.get_box("box_123").unwrap();
    assert_eq!(b.id, "box_123");
    assert_eq!(b.name, Some("mybox".to_string()));
    assert_eq!(b.status, "running");
}

#[test]
fn test_get_box_by_name() {
    let m = manager(seeded(&[("box_456", Some("namedbox"), "running")]));
    let b = m.get_box("namedbox").unwrap();
    assert_eq!(b.id, "box_456");
    assert_eq!(b.name, Some("namedbox".to_string()));
}

#[test]
fn test_list_execs_empty() {
    let m = manager(seeded(&[("box_1", None, "running")]));
    assert_eq!(m.store().list_execs("box_1").unwrap().len(), 0);
}

#[test]
fn test_list_execs_with_data() {
    let mut store = seeded(&[("box_1", None, "running")]);
    seed_exec(&mut store, "exec_1", "box_1", "succeeded", Some(0));
    seed_exec(&mut store, "exec_2", "box_1", "failed", Some(1));
    let m = manager(store);
    assert_eq!(m.store().list_execs("box_1").unwrap().len(), 2);
}

#[test]
fn test_gc_no_boxes() {
    let mut m = manager(Store::new());
    assert_eq!(m.gc(3600).unwrap(), 0);
}

#[test]
fn test_full_box_lifecycle() {
    let mut m = manager(Store::new());
    let box_id = create(&mut m, Some("lifecycle"));
    assert!(box_id.starts_with("box_"));
    assert_eq!(box_id.len(), 16);
    assert_eq!(m.get_box(&box_id).unwrap().status, "running");
    assert_eq!(m.stop_box(&box_id).unwrap().status, "stopped");
    assert_eq!(m.start_box(&box_id).unwrap().status, "running");
    m.remove_box(&box_id, true).unwrap();
    let e = m.get_box(&box_id).unwrap_err();
    assert_eq!(e.http_status(), 404);
}

#[test]
fn test_create_box_duplicate_name() {
    let mut m = manager(Store::new());
    create(&mut m, Some("dupname"));
    let e = m.create_box("ubuntu:24.04", Some("dupname"), 2, 1024, 8, false, "/root", &None, &None).unwrap_err();
    assert_eq!(e.code, ErrorCode::NameAlreadyExists);
    assert_eq!(e.http_status(), 409);
    assert_eq!(e.message, "A box with name 'dupname' already exists");
    m.remove_box("dupname", true).unwrap();
}

#[test]
fn test_exec_lifecycle() {
    let mut m = manager(Store::new());
    let box_id = create(&mut m, None);
    let exec = m.exec_in_box(&box_id, &["echo".into(), "hello".into()], &None, None, None).unwrap();
    assert_eq!(exec.status, "running");
    assert!(exec.id.starts_with("exec_"));
    assert!(m.get_exec_task(&exec.id));
    m.complete_exec(&exec.id);
    let done = m.get_exec(&exec.id).unwrap();
    assert_eq!(done.status, "succeeded");
    assert_eq!(done.exit_code, Some(0));
    assert!(!m.get_exec_task(&exec.id));
    m.remove_box(&box_id, true).unwrap();
}

#[test]
fn test_gc_removes_old_stopped() {
    let mut m = manager(Store::new());
    let box_id = create(&mut m, None);
    m.stop_box_at(&box_id, "2020-01-01T00:00:00+00:00").unwrap();
    let removed = m.gc(1).unwrap();
    assert!(removed >= 1);
    assert!(m.get_box(&box_id).is_err());
}

#[test]
fn resources_follow_running_boxes() {
    let mut m = manager(Store::new());
    let a = create(&mut m, Some("a"));
    let b = create(&mut m, Some("b"));
    let u = m.resource_usage();
    assert_eq!((u.total_cpu, u.total_memory_mb, u.box_count), (4, 2048, 2));
    m.stop_box(&a).unwrap();
    let u = m.resource_usage();
    assert_eq!((u.total_cpu, u.total_memory_mb, u.box_count), (2, 1024, 1));
    m.start_box("a").unwrap();
    m.remove_box(&b, true).unwrap();
    let u = m.resource_usage();
    assert_eq!((u.total_cpu, u.total_memory_mb, u.box_count), (2, 1024, 1));
    m.remove_box("a", true).unwrap();
    let u = m.resource_usage();
    assert_eq!((u.total_cpu, u.total_memory_mb, u.box_count), (0, 0, 0));
}

#[test]
fn limits_refuse_without_change() {
    let mut m = BoxManager::new(Store::new(), EventBus::new(), 3, 1536);
    create(&mut m, Some("first"));
    let e = m.create_box("ubuntu:24.04", Some("second"), 2, 256, 8, false, "/root", &None, &None).unwrap_err();
    assert_eq!(e.code, ErrorCode::ResourceExceeded);
    assert_eq!(e.message, "Total CPU limit (3) would be exceeded");
    let e = m.create_box("ubuntu:24.04", Some("second"), 1, 1024, 8, false, "/root", &None, &None).unwrap_err();
    assert_eq!(e.message, "Total memory limit (1536MB) would be exceeded");
    assert_eq!(m.list_boxes(None).unwrap().len(), 1);
    let u = m.resource_usage();
    assert_eq!((u.total_cpu, u.total_memory_mb, u.box_count), (2, 1024, 1));
    m.stop_box("first").unwrap();
    create(&mut m, Some("third"));
    let e = m.start_box("first").unwrap_err();
    assert_eq!(e.code, ErrorCode::ResourceExceeded);
    assert_eq!(e.message, "Total CPU limit would be exceeded");
    assert_eq!(m.get_box("first").unwrap().status, "stopped");
}

#[test]
fn missing_volume_host_path_is_refused() {
    let mut m = manager(Store::new());
    let vols = Some(vec![Volume {
        host_path: "/definitely/not/here/boxrun".into(),
        guest_path: "/data".into(),
        readonly: false,
    }]);
    let e = m.create_box("ubuntu:24.04", None, 1, 128, 1, false, "/root", &None, &vols).unwrap_err();
    assert_eq!(e.code, ErrorCode::RuntimeError);
    assert_eq!(e.message, "Volume host path does not exist: /definitely/not/here/boxrun");
    assert_eq!(m.list_boxes(None).unwrap().len(), 0);
}

#[test]
fn exec_events_reach_subscribers() {
    let mut m = manager(Store::new());
    let box_id = create(&mut m, None);
    let exec = m.exec_in_box(&box_id, &["true".into()], &None, None, None).unwrap();
    let sub = m.subscribe_events(&exec.id);
    m.complete_exec(&exec.id);
    match m.receive_event(&sub) {
        Received::Event(e) => {
            assert_eq!(e.event_type, "exit");
            assert_eq!(e.data, "{\"exit_code\":0}");
        }
        _ => panic!("expected the exit event"),
    }
    assert!(matches!(m.receive_event(&sub), Received::End));
    let stored = m.store().get_events(&exec.id, 0).unwrap();
    assert_eq!(stored.len(), 1);
    let out = collect_run_output(&stored);
    assert_eq!(out.exit_code, Some(0));
    m.unsubscribe_events(sub);
}

#[test]
fn canceled_exec_is_not_completed() {
    let mut m = manager(Store::new());
    let box_id = create(&mut m, None);
    let exec = m.exec_in_box(&box_id, &["sleep".into(), "9".into()], &None, None, None).unwrap();
    assert_eq!(m.cancel_exec(&exec.id).unwrap().status, "canceled");
    m.complete_exec(&exec.id);
    assert_eq!(m.get_exec(&exec.id).unwrap().status, "canceled");
    assert!(m.store().get_events(&exec.id, 0).unwrap().is_empty());
}

#[test]
fn init_takes_up_running_boxes() {
    let mut store = Store::new();
    store.create_box("box_r", None, "img", 3, 300, 1, false, "/", &None, &None).unwrap();
    store.update_box("box_r", &[("status", BoxValue::Text("running".into())), ("boxlite_id", BoxValue::Text("bl_box_r".into()))]).unwrap();
    store.create_box("box_s", None, "img", 5, 500, 1, false, "/", &None, &None).unwrap();
    store.update_box("box_s", &[("status", BoxValue::Text("stopped".into())), ("boxlite_id", BoxValue::Text("bl_box_s".into()))]).unwrap();
    let mut m = manager(store);
    m.init().unwrap();
    let u = m.resource_usage();
    assert_eq!((u.total_cpu, u.total_memory_mb, u.box_count), (3, 300, 1));
    assert!(m.upload_file("box_r", "/tmp/x", "/root/x").is_ok());
    assert!(m.download_file("box_r", "/root/x", "/tmp/x").is_ok());
    assert_eq!(m.upload_file("box_s", "/tmp/x", "/root/x").unwrap_err().code, ErrorCode::BoxNotRunning);
    m.shutdown();
}

#[test]
fn actions_parse() {
    assert_eq!(parse_box_action("box_1:stop").unwrap(), ("box_1".to_string(), BoxAction::Stop));
    assert_eq!(parse_box_action("a:b:start").unwrap(), ("a:b".to_string(), BoxAction::Start));
    assert_eq!(parse_box_action("box_1:unknown").unwrap_err(), "Unknown action: unknown");
    assert_eq!(parse_box_action("box_1").unwrap_err(), "Missing action (expected :stop or :start)");
}

#[test]
fn stop_then_start_restores_totals() {
    let mut m = manager(Store::new());
    let a = create(&mut m, Some("a"));
    create(&mut m, Some("b"));
    let before = m.resource_usage();
    m.stop_box(&a).unwrap();
    let row = m.start_box(&a).unwrap();
    assert_eq!(row.status, "running");
    assert!(row.stopped_at.is_none());
    let after = m.resource_usage();
    assert_eq!(
        (before.total_cpu, before.total_memory_mb, before.box_count),
        (after.total_cpu, after.total_memory_mb, after.box_count)
    );
}

fn run_request(cpu: i64) -> RunRequest {
    RunRequest {
        image: "alpine:latest".into(), cmd: vec!["echo".into(), "hi".into()], cpu, memory_mb: 512, disk_size_gb: 4,
        network: false, env: None, volumes: None, timeout_ms: None,
    }
}

#[test]
fn run_removes_its_box() {
    let mut m = manager(Store::new());
    let before = m.resource_usage();
    let (box_id, exec_id) = m.start_run(&run_request(2)).unwrap();
    assert!(box_id.starts_with("box_"));
    assert!(exec_id.starts_with("exec_"));
    assert_eq!(m.resource_usage().total_cpu, 2);
    assert_eq!(m.get_box(&box_id).unwrap().status, "running");
    m.complete_exec(&exec_id);
    assert!(m.removal_fits(&box_id));
    let out = m.finish_run(&box_id, &exec_id);
    assert_eq!(out.exit_code, Some(0));
    assert_eq!(out.stdout, "");
    assert!(out.error_message.is_none());
    assert_eq!(m.get_box(&box_id).unwrap_err().code, ErrorCode::BoxNotFound);
    assert!(m.list_boxes(None).unwrap().is_empty());
    let after = m.resource_usage();
    assert_eq!((after.total_cpu, after.total_memory_mb, after.box_count), (before.total_cpu, before.total_memory_mb, before.box_count));
}

#[test]
fn refused_run_leaves_nothing() {
    let mut m = manager(Store::new());
    assert!(m.claim_fits(9, 512));
    let e = m.start_run(&run_request(9)).unwrap_err();
    assert_eq!(e.code, ErrorCode::ResourceExceeded);
    assert!(m.list_boxes(None).unwrap().is_empty());
    assert_eq!(m.resource_usage().total_cpu, 0);
}

#[test]
fn fits_checks() {
    let mut m = manager(Store::new());
    assert!(m.claim_fits(2, 1024));
    let id = create(&mut m, None);
    assert!(m.removal_fits(&id));
    assert!(m.start_fits(&id));
    assert!(m.removal_fits("missing"));
}
