//! Request and response models of the API, and the validation rules for
//! requests.
use vstd::prelude::*;
use std::collections::HashMap;
use crate::text::starts_with_char;

verus! {

/// A host directory mounted into a box.
#[derive(Debug, Clone, PartialEq)]
pub struct Volume {
    pub host_path: String,
    pub guest_path: String,
    pub readonly: bool,
}

impl Volume {
    /// A copy of the volume.
    pub fn duplicate(&self) -> (r: Volume)
        ensures
            r == *self,
    {
        Volume {
            host_path: self.host_path.clone(),
            guest_path: self.guest_path.clone(),
            readonly: self.readonly,
        }
    }
}

/// A copy of an optional list of volumes.
pub fn duplicate_volumes(v: &Option<Vec<Volume>>) -> (r: Option<Vec<Volume>>)
    ensures
        r is Some <==> v is Some,
        r is Some ==> r->0@ == v->0@,
{
    match v {
        None => None,
        Some(list) => {
            let mut out: Vec<Volume> = Vec::new();
            let mut i: usize = 0;
            while i < list.len()
                invariant
                    i <= list@.len(),
                    out@ == list@.subrange(0, i as int),
                decreases list@.len() - i,
            {
                out.push(list[i].duplicate());
                proof {
                    assert(list@.subrange(0, i + 1) =~= list@.subrange(0, i as int).push(list@[i as int]));
                }
                i = i + 1;
            }
            proof {
                assert(list@.subrange(0, list@.len() as int) =~= list@);
            }
            Some(out)
        },
    }
}

/// A copy of an optional environment map.
pub fn duplicate_env(env: &Option<HashMap<String, String>>) -> (r: Option<HashMap<String, String>>)
    ensures
        r is Some <==> env is Some,
        r is Some ==> r->0@ == env->0@,
{
    match env {
        None => None,
        Some(m) => Some(m.clone()),
    }
}

/// Whether a path is absolute: non-empty and starting with '/'.
pub open spec fn is_absolute(p: Seq<char>) -> bool {
    p.len() > 0 && p[0] == '/'
}

/// A request to create a box.
#[derive(Debug, Clone)]
pub struct CreateBoxRequest {
    pub image: String,
    pub name: Option<String>,
    pub cpu: i64,
    pub memory_mb: i64,
    pub disk_size_gb: i64,
    pub network: bool,
    pub workdir: String,
    pub env: Option<HashMap<String, String>>,
    pub volumes: Option<Vec<Volume>>,
}

/// The first rule that a box creation request breaks, as its message.
pub open spec fn create_box_problem(cpu: int, memory_mb: int, disk_size_gb: int, workdir: Seq<char>) -> Option<Seq<char>> {
    if cpu <= 0 {
        Some("cpu must be greater than 0"@)
    } else if memory_mb <= 0 {
        Some("memory_mb must be greater than 0"@)
    } else if disk_size_gb <= 0 {
        Some("disk_size_gb must be greater than 0"@)
    } else if !is_absolute(workdir) {
        Some("workdir must be an absolute path (starting with /)"@)
    } else {
        None
    }
}

impl CreateBoxRequest {
    /// Validates the request, returning the message of the first rule it breaks.
    pub fn validate(&self) -> (r: Result<(), String>)
        ensures
            match create_box_problem(self.cpu as int, self.memory_mb as int, self.disk_size_gb as int, self.workdir@) {
                None => r is Ok,
                Some(m) => r matches Err(e) && e@ == m,
            },
    {
        if self.cpu <= 0 {
            return Err("cpu must be greater than 0".to_owned());
        }
        if self.memory_mb <= 0 {
            return Err("memory_mb must be greater than 0".to_owned());
        }
        if self.disk_size_gb <= 0 {
            return Err("disk_size_gb must be greater than 0".to_owned());
        }
        if !starts_with_char(self.workdir.as_str(), '/') {
            return Err("workdir must be an absolute path (starting with /)".to_owned());
        }
        Ok(())
    }
}

/// A box as the API reports it.
#[derive(Debug, Clone)]
pub struct BoxResponse {
    pub id: String,
    pub name: Option<String>,
    pub status: String,
    pub image: String,
    pub cpu: i64,
    pub memory_mb: i64,
    pub disk_size_gb: i64,
    pub network: bool,
    pub workdir: String,
    pub env: Option<HashMap<String, String>>,
    pub volumes: Option<Vec<Volume>>,
    pub boxlite_id: Option<String>,
    pub error_code: Option<String>,
    pub error_message: Option<String>,
    pub created_at: String,
    pub started_at: Option<String>,
    pub stopped_at: Option<String>,
}

/// A request to run a command in a box.
#[derive(Debug, Clone)]
pub struct ExecRequest {
    pub cmd: Vec<String>,
    pub env: Option<HashMap<String, String>>,
    pub workdir: Option<String>,
    pub timeout_ms: Option<i64>,
}

/// The first rule that an exec request breaks, as its message.
pub open spec fn exec_problem(cmd_len: nat, workdir: Option<Seq<char>>, timeout_ms: Option<i64>) -> Option<Seq<char>> {
    if cmd_len == 0 {
        Some("cmd must be a non-empty list"@)
    } else if workdir is Some && !is_absolute(workdir->0) {
        Some("workdir must be an absolute path (starting with /)"@)
    } else if timeout_ms is Some && timeout_ms->0 <= 0 {
        Some("timeout_ms must be positive"@)
    } else {
        None
    }
}

/// The view of an optional string.
pub open spec fn opt_view(s: Option<String>) -> Option<Seq<char>> {
    match s {
        Some(x) => Some(x@),
        None => None,
    }
}

impl ExecRequest {
    /// Validates the request, returning the message of the first rule it breaks.
    pub fn validate(&self) -> (r: Result<(), String>)
        ensures
            match exec_problem(self.cmd@.len(), opt_view(self.workdir), self.timeout_ms) {
                None => r is Ok,
                Some(m) => r matches Err(e) && e@ == m,
            },
    {
        if self.cmd.len() == 0 {
            return Err("cmd must be a non-empty list".to_owned());
        }
        if let Some(w) = &self.workdir {
            if !starts_with_char(w.as_str(), '/') {
                return Err("workdir must be an absolute path (starting with /)".to_owned());
            }
        }
        if let Some(t) = self.timeout_ms {
            if t <= 0 {
                return Err("timeout_ms must be positive".to_owned());
            }
        }
        Ok(())
    }
}

/// An execution as the API reports it.
#[derive(Debug, Clone)]
pub struct ExecResponse {
    pub id: String,
    pub box_id: String,
    pub status: String,
    pub cmd: Vec<String>,
    pub env: Option<HashMap<String, String>>,
    pub workdir: Option<String>,
    pub timeout_ms: Option<i64>,
    pub exit_code: Option<i64>,
    pub error_message: Option<String>,
    pub created_at: String,
    pub finished_at: Option<String>,
}

/// A request to download a file out of a box.
#[derive(Debug, Clone)]
pub struct DownloadRequest {
    pub path: String,
}

/// A request to run a command in a box that lives only for that command.
#[derive(Debug, Clone)]
pub struct RunRequest {
    pub image: String,
    pub cmd: Vec<String>,
    pub cpu: i64,
    pub memory_mb: i64,
    pub disk_size_gb: i64,
    pub network: bool,
    pub env: Option<HashMap<String, String>>,
    pub volumes: Option<Vec<Volume>>,
    pub timeout_ms: Option<i64>,
}

/// The first rule that a run request breaks, as its message.
pub open spec fn run_problem(cmd_len: nat, timeout_ms: Option<i64>) -> Option<Seq<char>> {
    if cmd_len == 0 {
        Some("cmd must be a non-empty list"@)
    } else if timeout_ms is Some && timeout_ms->0 <= 0 {
        Some("timeout_ms must be positive"@)
    } else {
        None
    }
}

impl RunRequest {
    /// Validates the request, returning the message of the first rule it breaks.
    pub fn validate(&self) -> (r: Result<(), String>)
        ensures
            match run_problem(self.cmd@.len(), self.timeout_ms) {
                None => r is Ok,
                Some(m) => r matches Err(e) && e@ == m,
            },
    {
        if self.cmd.len() == 0 {
            return Err("cmd must be a non-empty list".to_owned());
        }
        if let Some(t) = self.timeout_ms {
            if t <= 0 {
                return Err("timeout_ms must be positive".to_owned());
            }
        }
        Ok(())
    }
}

/// The outcome of a run in a short-lived box.
#[derive(Debug, Clone)]
pub struct RunResponse {
    pub exit_code: Option<i64>,
    pub stdout: String,
    pub stderr: String,
    pub error_message: Option<String>,
}

/// A request to remove old boxes.
#[derive(Debug, Clone)]
pub struct GCRequest {
    pub older_than: i64,
}

/// The default age, in seconds, past which stopped boxes are collected.
pub fn default_gc_older_than() -> (r: i64)
    ensures
        r == 3600,
{
    3600
}

/// How many boxes a collection removed.
#[derive(Debug, Clone)]
pub struct GCResponse {
    pub removed: i64,
}

/// The body of an error answer.
#[derive(Debug, Clone)]
pub struct ErrorResponse {
    pub code: String,
    pub message: String,
}

/// The server's resource limits.
#[derive(Debug, Clone)]
pub struct ServerInfo {
    pub max_cpu: i64,
    pub max_memory_mb: i64,
}

} // verus!
