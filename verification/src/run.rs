//! Run requests and the construction of run configurations.

use vstd::prelude::*;
use vstd::string::*;
use crate::env_map::EnvMap;

verus! {

/// Default wall/CPU time ceiling for a foreground run, in milliseconds.
pub fn default_time() -> (r: u64)
    ensures
        r == 300000,
{
    300000
}

/// Default address-space ceiling for a foreground run, in kilobytes.
pub fn default_mem() -> (r: u64)
    ensures
        r == 2097152,
{
    2097152
}

/// Default cap on open file descriptors for a foreground run.
pub fn default_nofile() -> (r: u64)
    ensures
        r == 256,
{
    256
}

/// Default cap on created file size for a foreground run, in kilobytes.
pub fn default_fsize() -> (r: u64)
    ensures
        r == 1048576,
{
    1048576
}

/// Default working directory of a run.
pub fn default_cwd() -> (r: String)
    ensures
        r@ == "/"@,
{
    "/".to_owned()
}

/// Default port requested for a background run.
pub fn default_port() -> (r: u16)
    ensures
        r == 5173,
{
    5173
}

/// A request to run a command, as delivered by the HTTP surface.
pub struct RunRequest {
    /// Argument vector; the first element is the program.
    pub command: Vec<String>,
    /// Wall/CPU time ceiling in milliseconds.
    pub time: u64,
    /// Address-space ceiling in kilobytes.
    pub mem: u64,
    /// Cap on created file size in kilobytes.
    pub fsize: u64,
    /// Cap on open file descriptors.
    pub nofile: u64,
    /// Per-request environment overrides.
    pub env: EnvMap,
    /// Requested working directory; `/` means "inherit the session's".
    pub cwd: String,
}

/// A request to start a detached background process.
pub struct BackgroundRunRequest {
    /// Argument vector; the first element is the program.
    pub command: Vec<String>,
    /// Requested port; zero asks for an automatically assigned one.
    pub port: u16,
    /// Per-request environment overrides.
    pub env: EnvMap,
    /// Requested working directory; `/` means "inherit the session's".
    pub cwd: String,
}

/// Everything the sandbox layer needs to spawn one child process.
pub struct RunConfig {
    pub command: Vec<String>,
    pub time_ms: u64,
    pub mem_kb: u64,
    pub fsize_kb: u64,
    pub nofile: u64,
    pub env: EnvMap,
    pub cwd: String,
}

/// The outcome of a finished foreground run.
pub struct RunResult {
    /// Exit code, absent when the child was killed by a signal.
    pub exit_code: Option<i32>,
    /// Terminating signal number, if any.
    pub signal: Option<i32>,
    /// Captured standard output, possibly truncated.
    pub stdout: Vec<u8>,
    /// Captured standard error, possibly truncated.
    pub stderr: Vec<u8>,
}

/// The working directory a run uses: the request's, unless the request
/// says `/`, which means the session's own is inherited.
pub open spec fn merged_cwd(req_cwd: Seq<char>, session_cwd: Seq<char>) -> Seq<char> {
    if req_cwd != "/"@ {
        req_cwd
    } else {
        session_cwd
    }
}

/// Picks the effective working directory of a run inside a session.
pub fn effective_cwd(req_cwd: String, session_cwd: String) -> (r: String)
    ensures
        r@ == merged_cwd(req_cwd@, session_cwd@),
{
    if crate::strutil::str_eq(req_cwd.as_str(), "/") {
        session_cwd
    } else {
        req_cwd
    }
}

/// Builds the configuration of a stateless oneshot run: the request is
/// taken as it stands, with no session state to merge.
pub fn run_oneshot(req: RunRequest) -> (r: RunConfig)
    ensures
        r.command == req.command,
        r.time_ms == req.time,
        r.mem_kb == req.mem,
        r.fsize_kb == req.fsize,
        r.nofile == req.nofile,
        r.env == req.env,
        r.cwd == req.cwd,
{
    RunConfig {
        command: req.command,
        time_ms: req.time,
        mem_kb: req.mem,
        fsize_kb: req.fsize,
        nofile: req.nofile,
        env: req.env,
        cwd: req.cwd,
    }
}

} // verus!
