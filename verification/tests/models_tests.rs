use boxrun::config::{default_cpu, default_disk_size_gb, default_memory_mb, default_workdir};
use boxrun::models::{default_gc_older_than, CreateBoxRequest, ExecRequest, RunRequest};

fn create_request(cpu: i64, memory_mb: i64, disk_size_gb: i64, workdir: &str) -> CreateBoxRequest {
    CreateBoxRequest {
        image: "test".into(),
        name: None,
        cpu,
        memory_mb,
        disk_size_gb,
        network: false,
        workdir: workdir.into(),
        env: None,
        volumes: None,
    }
}

#[test]
fn test_create_box_request_validation() {
    let req = CreateBoxRequest {
        image: "test".into(),
        name: None,
        cpu: 0,
        memory_mb: 1024,
        disk_size_gb: 8,
        network: false,
        workdir: "/root".into(),
        env: None,
        volumes: None,
    };
    assert!(req.validate().is_err());

    let req = CreateBoxRequest {
        image: "test".into(),
        name: None,
        cpu: 2,
        memory_mb: 1024,
        disk_size_gb: 8,
        network: false,
        workdir: "relative".into(),
        env: None,
        volumes: None,
    };
    assert!(req.validate().is_err());
}

#[test]
fn test_exec_request_validation() {
    let req = ExecRequest { cmd: vec![], env: None, workdir: None, timeout_ms: None };
    assert!(req.validate().is_err());

    let req = ExecRequest { cmd: vec!["ls".into()], env: None, workdir: Some("relative".into()), timeout_ms: None };
    assert!(req.validate().is_err());

    let req = ExecRequest { cmd: vec!["ls".into()], env: None, workdir: None, timeout_ms: Some(-1) };
    assert!(req.validate().is_err());
}

#[test]
fn create_request_messages() {
    assert_eq!(create_request(0, 1024, 8, "/root").validate(), Err("cpu must be greater than 0".to_string()));
    assert_eq!(create_request(2, -1, 8, "/root").validate(), Err("memory_mb must be greater than 0".to_string()));
    assert_eq!(create_request(2, 1024, 0, "/root").validate(), Err("disk_size_gb must be greater than 0".to_string()));
    assert_eq!(
        create_request(2, 1024, 8, "relative").validate(),
        Err("workdir must be an absolute path (starting with /)".to_string())
    );
    assert_eq!(create_request(2, 1024, 8, "/root").validate(), Ok(()));
    // The first broken rule is the one reported.
    assert_eq!(create_request(0, 0, 0, "x").validate(), Err("cpu must be greater than 0".to_string()));
}

#[test]
fn exec_request_messages() {
    let ok = ExecRequest { cmd: vec!["ls".into()], env: None, workdir: Some("/tmp".into()), timeout_ms: Some(5) };
    assert_eq!(ok.validate(), Ok(()));
    let zero = ExecRequest { cmd: vec!["ls".into()], env: None, workdir: None, timeout_ms: Some(0) };
    assert_eq!(zero.validate(), Err("timeout_ms must be positive".to_string()));
    let empty = ExecRequest { cmd: vec![], env: None, workdir: Some("rel".into()), timeout_ms: Some(0) };
    assert_eq!(empty.validate(), Err("cmd must be a non-empty list".to_string()));
}

#[test]
fn run_request_messages() {
    let mut req = RunRequest {
        image: "ubuntu:24.04".into(),
        cmd: vec![],
        cpu: 2,
        memory_mb: 1024,
        disk_size_gb: 8,
        network: false,
        env: None,
        volumes: None,
        timeout_ms: None,
    };
    assert_eq!(req.validate(), Err("cmd must be a non-empty list".to_string()));
    req.cmd = vec!["echo".into()];
    assert_eq!(req.validate(), Ok(()));
    req.timeout_ms = Some(-5);
    assert_eq!(req.validate(), Err("timeout_ms must be positive".to_string()));
}

#[test]
fn gc_default_is_an_hour() {
    assert_eq!(default_gc_older_than(), 3600);
}

#[test]
fn request_defaults() {
    assert_eq!(default_cpu(), 2);
    assert_eq!(default_memory_mb(), 1024);
    assert_eq!(default_disk_size_gb(), 8);
    assert_eq!(default_workdir(), "/root");
    assert_eq!(default_gc_older_than(), 3600);
}
