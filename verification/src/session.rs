//! Session records: an isolated execution context with its own filesystem
//! root, environment, working directory, exposed ports and background
//! processes.

use vstd::prelude::*;
use vstd::string::*;
use crate::env_map::EnvMap;
use crate::env_map::clone_string;

verus! {

/// Sessions idle longer than this many seconds are reaped.
pub const SESSION_TTL_SECS: u64 = 300;

/// First port handed out by the automatic port counter.
pub const PORT_RANGE_START: u16 = 10000;

/// Port the preview proxy falls back to when a session has none registered.
pub const DEFAULT_PREVIEW_PORT: u16 = 5173;

/// Status of a sandbox session.
#[derive(Clone, Copy, Debug, PartialEq, Eq, Structural)]
pub enum SessionStatus {
    Running,
    Idle,
    Terminating,
}

/// The lowercase wire label of a status.
pub open spec fn status_label(s: SessionStatus) -> Seq<char> {
    match s {
        SessionStatus::Running => "running"@,
        SessionStatus::Idle => "idle"@,
        SessionStatus::Terminating => "terminating"@,
    }
}

impl SessionStatus {
    /// The lowercase label used on the wire.
    pub fn label(&self) -> (r: String)
        ensures
            r@ == status_label(*self),
    {
        match self {
            SessionStatus::Running => "running".to_owned(),
            SessionStatus::Idle => "idle".to_owned(),
            SessionStatus::Terminating => "terminating".to_owned(),
        }
    }
}

/// A sandbox session with persistent environment and working directory.
pub struct Session {
    /// Opaque unique identifier.
    pub id: String,
    /// Host directory owned by this session.
    pub sandbox_root: String,
    /// Persistent environment, the base of every run in the session.
    pub env: EnvMap,
    /// Working directory interpreted inside the sandbox.
    pub cwd: String,
    /// Monotonic creation time, in seconds.
    pub created_at: u64,
    /// Monotonic time of the last handler that touched the session.
    pub last_used: u64,
    /// Preview URL for reaching web servers in the sandbox.
    pub preview_url: Option<String>,
    /// Ports exposed by background processes, in order of registration.
    pub ports: Vec<u16>,
    /// Current session status.
    pub status: SessionStatus,
    /// PIDs of detached background processes.
    pub background_pids: Vec<u32>,
}

impl Session {
    /// Internal consistency of one record.
    pub open spec fn wf(&self) -> bool {
        &&& self.env.wf()
        &&& self.created_at <= self.last_used
        &&& forall|i: int, j: int|
            0 <= i < j < self.ports@.len() ==> self.ports@[i] != self.ports@[j]
    }
}

/// `s` with `last_used` advanced to `now` (never moved backwards).
pub open spec fn touched(s: Session, now: u64) -> Session {
    Session {
        last_used: if now > s.last_used {
            now
        } else {
            s.last_used
        },
        ..s
    }
}

/// `now - t`, clamped at zero.
pub open spec fn age_secs_of(now: u64, t: u64) -> u64 {
    if now >= t {
        (now - t) as u64
    } else {
        0
    }
}

/// The public description of one session.
pub struct SessionInfo {
    pub id: String,
    pub env: EnvMap,
    pub cwd: String,
    pub age_secs: u64,
    pub idle_secs: u64,
    pub preview_url: Option<String>,
    pub ports: Vec<u16>,
    pub status: String,
}

/// What `SessionInfo` must say about a session observed at time `now`.
pub open spec fn matches_info(info: SessionInfo, s: Session, now: u64) -> bool {
    &&& info.id@ == s.id@
    &&& info.env@ == s.env@
    &&& info.cwd@ == s.cwd@
    &&& info.age_secs == age_secs_of(now, s.created_at)
    &&& info.idle_secs == age_secs_of(now, s.last_used)
    &&& opt_str_matches(info.preview_url, s.preview_url)
    &&& info.ports@ == s.ports@
    &&& info.status@ == status_label(s.status)
}

/// Two optional strings with the same presence and characters.
pub open spec fn opt_str_matches(a: Option<String>, b: Option<String>) -> bool {
    match (a, b) {
        (Option::Some(x), Option::Some(y)) => x@ == y@,
        (Option::None, Option::None) => true,
        _ => false,
    }
}

/// Copies an optional string.
pub fn clone_opt_string(s: &Option<String>) -> (r: Option<String>)
    ensures
        opt_str_matches(r, *s),
{
    match s {
        Option::Some(x) => Option::Some(clone_string(x)),
        Option::None => Option::None,
    }
}

/// Copies a port list.
pub fn clone_ports(v: &Vec<u16>) -> (r: Vec<u16>)
    ensures
        r@ == v@,
{
    let mut r: Vec<u16> = Vec::new();
    let n = v.len();
    let mut i: usize = 0;
    while i < n
        invariant
            0 <= i <= n,
            n == v@.len(),
            r@ =~= v@.take(i as int),
        decreases n - i,
    {
        r.push(v[i]);
        proof {
            assert(r@ =~= v@.take(i + 1 as int));
        }
        i = i + 1;
    }
    proof {
        assert(v@.take(n as int) =~= v@);
    }
    r
}

/// Copies a PID list.
pub fn clone_pids(v: &Vec<u32>) -> (r: Vec<u32>)
    ensures
        r@ == v@,
{
    let mut r: Vec<u32> = Vec::new();
    let n = v.len();
    let mut i: usize = 0;
    while i < n
        invariant
            0 <= i <= n,
            n == v@.len(),
            r@ =~= v@.take(i as int),
        decreases n - i,
    {
        r.push(v[i]);
        proof {
            assert(r@ =~= v@.take(i + 1 as int));
        }
        i = i + 1;
    }
    proof {
        assert(v@.take(n as int) =~= v@);
    }
    r
}

/// Builds the public description of `s` as observed at time `now`.
pub fn make_session_info(s: &Session, now: u64) -> (r: SessionInfo)
    requires
        s.wf(),
    ensures
        matches_info(r, *s, now),
{
    SessionInfo {
        id: clone_string(&s.id),
        env: s.env.duplicate(),
        cwd: clone_string(&s.cwd),
        age_secs: if now >= s.created_at {
            now - s.created_at
        } else {
            0
        },
        idle_secs: if now >= s.last_used {
            now - s.last_used
        } else {
            0
        },
        preview_url: clone_opt_string(&s.preview_url),
        ports: clone_ports(&s.ports),
        status: s.status.label(),
    }
}

} // verus!
