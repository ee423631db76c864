//! The session registry: a mapping from session ID to session record,
//! a monotonic port counter, and the preview-domain configuration. Every
//! handler of the service is a method here; the surrounding binary only
//! performs the operating-system work the methods hand back.

use vstd::prelude::*;
use vstd::string::*;
use crate::env_map::EnvMap;
use crate::env_map::clone_string;
use crate::errors::ApiError;
use crate::session::{
    Session, SessionInfo, SessionStatus, clone_opt_string, clone_pids, make_session_info,
    matches_info, touched, PORT_RANGE_START, SESSION_TTL_SECS, DEFAULT_PREVIEW_PORT,
};
use crate::strutil::{contains_str, dec_str_of, u64_to_dec};
use crate::codec::fresh_session_id;
use crate::run::{BackgroundRunRequest, RunConfig, RunRequest, effective_cwd, merged_cwd};
use crate::session::opt_str_matches;
use crate::proxy::{first_port_or_default, host_prefix, strip_host};

verus! {

/// The mathematical contents of a session list, keyed by ID.
pub open spec fn session_map_of(s: Seq<Session>) -> Map<Seq<char>, Session>
    decreases s.len(),
{
    if s.len() == 0 {
        Map::empty()
    } else {
        session_map_of(s.drop_last()).insert(s.last().id@, s.last())
    }
}

/// No two records share an ID.
pub open spec fn unique_ids(s: Seq<Session>) -> bool {
    forall|i: int, j: int| 0 <= i < j < s.len() ==> s[i].id@ != s[j].id@
}

/// No two records share a sandbox root.
pub open spec fn unique_roots(s: Seq<Session>) -> bool {
    forall|i: int, j: int| 0 <= i < j < s.len() ==> s[i].sandbox_root@ != s[j].sandbox_root@
}

proof fn lemma_smap_contains(s: Seq<Session>, k: Seq<char>)
    ensures
        session_map_of(s).contains_key(k) <==> exists|i: int| 0 <= i < s.len() && s[i].id@ == k,
    decreases s.len(),
{
    if s.len() > 0 {
        lemma_smap_contains(s.drop_last(), k);
        if s.last().id@ != k && session_map_of(s).contains_key(k) {
            let i = choose|i: int| 0 <= i < s.drop_last().len() && s.drop_last()[i].id@ == k;
            assert(s[i].id@ == k);
        }
        if exists|i: int| 0 <= i < s.len() && s[i].id@ == k {
            let i = choose|i: int| 0 <= i < s.len() && s[i].id@ == k;
            if i < s.len() - 1 {
                assert(s.drop_last()[i].id@ == k);
            }
        }
    }
}

proof fn lemma_smap_at(s: Seq<Session>, i: int)
    requires
        unique_ids(s),
        0 <= i < s.len(),
    ensures
        session_map_of(s).contains_key(s[i].id@),
        session_map_of(s)[s[i].id@] == s[i],
    decreases s.len(),
{
    lemma_smap_contains(s, s[i].id@);
    if i < s.len() - 1 {
        assert(s.drop_last()[i] == s[i]);
        lemma_smap_at(s.drop_last(), i);
        assert(s.last().id@ != s[i].id@);
    }
}

proof fn lemma_smap_update(s: Seq<Session>, i: int, x: Session)
    requires
        unique_ids(s),
        0 <= i < s.len(),
        x.id@ == s[i].id@,
    ensures
        session_map_of(s.update(i, x)) == session_map_of(s).insert(x.id@, x),
    decreases s.len(),
{
    let su = s.update(i, x);
    if i == s.len() - 1 {
        assert(su.drop_last() =~= s.drop_last());
        assert(session_map_of(su) =~= session_map_of(s).insert(x.id@, x));
    } else {
        assert(su.drop_last() =~= s.drop_last().update(i, x));
        lemma_smap_update(s.drop_last(), i, x);
        assert(s.last().id@ != x.id@);
        assert(session_map_of(su) =~= session_map_of(s).insert(x.id@, x));
    }
}

proof fn lemma_smap_remove(s: Seq<Session>, i: int)
    requires
        unique_ids(s),
        0 <= i < s.len(),
    ensures
        session_map_of(s.remove(i)) == session_map_of(s).remove(s[i].id@),
    decreases s.len(),
{
    let k = s[i].id@;
    if i == s.len() - 1 {
        assert(s.remove(i) =~= s.drop_last());
        lemma_smap_contains(s.drop_last(), k);
        assert(!session_map_of(s.drop_last()).contains_key(k));
        assert(session_map_of(s.remove(i)) =~= session_map_of(s).remove(k));
    } else {
        assert(s.remove(i).drop_last() =~= s.drop_last().remove(i));
        assert(s.remove(i).last() == s.last());
        lemma_smap_remove(s.drop_last(), i);
        assert(s.last().id@ != k);
        assert(session_map_of(s.remove(i)) =~= session_map_of(s).remove(k));
    }
}

/// The response of session creation.
pub struct CreateSessionResponse {
    pub session_id: String,
    pub preview_url: Option<String>,
}

/// Work handed to the sandbox layer when a session is destroyed: kill the
/// listed PIDs, then remove the root.
pub struct CleanupTask {
    pub id: String,
    pub sandbox_root: String,
    pub background_pids: Vec<u32>,
}

/// Phase one of a foreground run: where it runs, and with what.
pub struct SessionRunTask {
    pub sandbox_root: String,
    pub config: RunConfig,
}

/// Phase one of a background run: where it runs, with what, on which port.
pub struct BackgroundRunTask {
    pub sandbox_root: String,
    pub config: RunConfig,
    pub port: u16,
    pub preview_url: Option<String>,
}

/// The PIDs a kill request must signal.
pub struct KillTask {
    pub pids: Vec<u32>,
}

/// What a status probe needs: the root holding the log, and the PIDs.
pub struct StatusQuery {
    pub sandbox_root: String,
    pub pids: Vec<u32>,
}

/// The preview hostname published for a session under a preview domain.
pub open spec fn preview_url_of(id: Seq<char>, domain: Seq<char>) -> Seq<char> {
    "https://"@ + id + "."@ + domain
}

/// Whether `u` is exactly the preview URL owed for `id` under `domain`.
pub open spec fn opt_preview_matches(u: Option<String>, domain: Option<String>, id: Seq<char>) -> bool {
    match domain {
        Option::Some(d) => u matches Option::Some(x) && x@ == preview_url_of(id, d@),
        Option::None => u is None,
    }
}

/// What a freshly created session record holds.
pub open spec fn is_new_session(
    s: Session,
    id: Seq<char>,
    root: Seq<char>,
    env: Map<Seq<char>, Seq<char>>,
    now: u64,
    domain: Option<String>,
) -> bool {
    &&& s.id@ == id
    &&& s.sandbox_root@ == root
    &&& s.env@ == env
    &&& s.cwd@ == "/"@
    &&& s.created_at == now
    &&& s.last_used == now
    &&& opt_preview_matches(s.preview_url, domain, id)
    &&& s.ports@.len() == 0
    &&& s.status == SessionStatus::Running
    &&& s.background_pids@.len() == 0
}

/// Shared application state: the live sessions, the IDs ever issued, the
/// port counter and the preview domain.
pub struct AppState {
    sessions: Vec<Session>,
    used_ids: Vec<String>,
    next_port: u16,
    /// Domain under which per-session preview hostnames are published.
    pub preview_domain: Option<String>,
    ports_issued: Ghost<Seq<u16>>,
}

impl View for AppState {
    type V = Map<Seq<char>, Session>;

    /// The live sessions, keyed by ID.
    closed spec fn view(&self) -> Map<Seq<char>, Session> {
        session_map_of(self.sessions@)
    }
}

impl AppState {
    /// The live session records, in insertion order.
    pub closed spec fn sessions_seq(&self) -> Seq<Session> {
        self.sessions@
    }

    /// Every ID ever issued, live or not.
    pub closed spec fn used_ids_seq(&self) -> Seq<Seq<char>> {
        self.used_ids@.map_values(|x: String| x@)
    }

    /// The configured preview domain.
    pub closed spec fn domain_spec(&self) -> Option<String> {
        self.preview_domain
    }

    /// The next port the counter will hand out.
    pub closed spec fn next_port_spec(&self) -> u16 {
        self.next_port
    }

    /// Every port the counter has handed out, in order.
    pub closed spec fn ports_issued_seq(&self) -> Seq<u16> {
        self.ports_issued@
    }

    /// Registry invariant: unique IDs and roots, well-formed records, live
    /// IDs all recorded as used, and the port counter above everything it
    /// has issued (until it saturates).
    pub open spec fn wf(&self) -> bool {
        &&& unique_ids(self.sessions_seq())
        &&& unique_roots(self.sessions_seq())
        &&& forall|i: int|
            0 <= i < self.sessions_seq().len() ==> (#[trigger] self.sessions_seq()[i]).wf()
        &&& forall|i: int|
            0 <= i < self.sessions_seq().len() ==> self.used_ids_seq().contains(
                (#[trigger] self.sessions_seq()[i]).id@,
            )
        &&& self.next_port_spec() >= PORT_RANGE_START
        &&& forall|k: int|
            0 <= k < self.ports_issued_seq().len() ==> (#[trigger] self.ports_issued_seq()[k]
                < self.next_port_spec() || self.next_port_spec() == 0xffff)
    }

    /// An empty registry with no preview domain.
    pub fn new() -> (r: AppState)
        ensures
            r.wf(),
            r@ == Map::<Seq<char>, Session>::empty(),
            r.sessions_seq().len() == 0,
            r.used_ids_seq().len() == 0,
            r.next_port_spec() == PORT_RANGE_START,
            r.domain_spec() is None,
            r.ports_issued_seq().len() == 0,
    {
        AppState {
            sessions: Vec::new(),
            used_ids: Vec::new(),
            next_port: PORT_RANGE_START,
            preview_domain: Option::None,
            ports_issued: Ghost(Seq::empty()),
        }
    }

    /// An empty registry publishing preview URLs under `preview_domain`.
    pub fn with_preview_domain(preview_domain: Option<String>) -> (r: AppState)
        ensures
            r.wf(),
            r@ == Map::<Seq<char>, Session>::empty(),
            r.sessions_seq().len() == 0,
            r.used_ids_seq().len() == 0,
            r.next_port_spec() == PORT_RANGE_START,
            r.domain_spec() == preview_domain,
            r.ports_issued_seq().len() == 0,
    {
        AppState {
            sessions: Vec::new(),
            used_ids: Vec::new(),
            next_port: PORT_RANGE_START,
            preview_domain,
            ports_issued: Ghost(Seq::empty()),
        }
    }

    /// Hands out the next port. The counter never wraps below the base:
    /// it saturates at the largest port, where callers may receive a value
    /// the operating system will reject at bind time.
    pub fn allocate_port(&mut self) -> (p: u16)
        requires
            old(self).wf(),
        ensures
            final(self).wf(),
            p == old(self).next_port_spec(),
            final(self).next_port_spec() == if old(self).next_port_spec() < 0xffff {
                (old(self).next_port_spec() + 1) as u16
            } else {
                old(self).next_port_spec()
            },
            final(self).ports_issued_seq() == old(self).ports_issued_seq().push(p),
            old(self).next_port_spec() < 0xffff ==> forall|k: int|
                0 <= k < old(self).ports_issued_seq().len() ==> p > old(self).ports_issued_seq()[k],
            final(self).sessions_seq() == old(self).sessions_seq(),
            final(self)@ == old(self)@,
            final(self).used_ids_seq() == old(self).used_ids_seq(),
            final(self).domain_spec() == old(self).domain_spec(),
    {
        let p = self.next_port;
        if self.next_port < 0xffff {
            self.next_port = self.next_port + 1;
        }
        proof {
            self.ports_issued@ = self.ports_issued@.push(p);
        }
        p
    }

    fn find_index(&self, id: &String) -> (r: Option<usize>)
        ensures
            match r {
                Some(i) => i < self.sessions_seq().len() && self.sessions_seq()[i as int].id@
                    == id@ && self@.contains_key(id@),
                None => !self@.contains_key(id@),
            },
    {
        proof {
            lemma_smap_contains(self.sessions@, id@);
        }
        let n = self.sessions.len();
        let mut i: usize = 0;
        while i < n
            invariant
                0 <= i <= n,
                n == self.sessions_seq().len(),
                forall|j: int| 0 <= j < i ==> self.sessions_seq()[j].id@ != id@,
            decreases n - i,
        {
            if self.sessions[i].id == *id {
                proof {
                    lemma_smap_contains(self.sessions@, id@);
                }
                return Some(i);
            }
            i = i + 1;
        }
        None
    }

    fn root_in_use(&self, root: &String) -> (r: bool)
        ensures
            r == exists|i: int|
                0 <= i < self.sessions_seq().len() && (#[trigger] self.sessions_seq()[i]).sandbox_root@
                    == root@,
    {
        let n = self.sessions.len();
        let mut i: usize = 0;
        while i < n
            invariant
                0 <= i <= n,
                n == self.sessions_seq().len(),
                forall|j: int| 0 <= j < i ==> (#[trigger] self.sessions_seq()[j]).sandbox_root@ != root@,
            decreases n - i,
        {
            if self.sessions[i].sandbox_root == *root {
                return true;
            }
            i = i + 1;
        }
        false
    }

    /// Creates a session under a caller-supplied identifier. Fails, and
    /// changes nothing, when the identifier was ever issued before or the
    /// sandbox root is already owned by a live session.
    pub fn create_session_with_id(
        &mut self,
        id: String,
        sandbox_root: String,
        env: EnvMap,
        now: u64,
    ) -> (r: Result<CreateSessionResponse, ApiError>)
        requires
            old(self).wf(),
            env.wf(),
        ensures
            final(self).wf(),
            final(self).domain_spec() == old(self).domain_spec(),
            final(self).next_port_spec() == old(self).next_port_spec(),
            final(self).ports_issued_seq() == old(self).ports_issued_seq(),
            match r {
                Ok(resp) => {
                    &&& !old(self).used_ids_seq().contains(id@)
                    &&& !old(self)@.contains_key(id@)
                    &&& resp.session_id@ == id@
                    &&& opt_preview_matches(resp.preview_url, old(self).domain_spec(), id@)
                    &&& final(self).used_ids_seq() == old(self).used_ids_seq().push(id@)
                    &&& final(self)@ == old(self)@.insert(id@, final(self)@[id@])
                    &&& is_new_session(
                        final(self)@[id@],
                        id@,
                        sandbox_root@,
                        env@,
                        now,
                        old(self).domain_spec(),
                    )
                    &&& final(self).sessions_seq() == old(self).sessions_seq().push(
                        final(self)@[id@],
                    )
                },
                Err(e) => {
                    &&& e == ApiError::Internal
                    &&& (old(self).used_ids_seq().contains(id@) || exists|i: int|
                        0 <= i < old(self).sessions_seq().len() && (#[trigger] old(self).sessions_seq()[i]).sandbox_root@ == sandbox_root@)
                    &&& *final(self) == *old(self)
                },
            },
    {
        if contains_str(&self.used_ids, &id) || self.root_in_use(&sandbox_root) {
            return Err(ApiError::Internal);
        }
        let preview_url = match &self.preview_domain {
            Option::Some(d) => Option::Some(build_preview_url(&id, d)),
            Option::None => Option::None,
        };
        let response = CreateSessionResponse {
            session_id: clone_string(&id),
            preview_url: clone_opt_string(&preview_url),
        };
        let session = Session {
            id: clone_string(&id),
            sandbox_root,
            env,
            cwd: crate::run::default_cwd(),
            created_at: now,
            last_used: now,
            preview_url,
            ports: Vec::new(),
            status: SessionStatus::Running,
            background_pids: Vec::new(),
        };
        proof {
            lemma_smap_contains(self.sessions@, id@);
        }
        self.sessions.push(session);
        self.used_ids.push(id);
        proof {
            assert(self.sessions@.drop_last() =~= old(self).sessions@);
            assert(self.used_ids@.map_values(|x: String| x@) =~= old(self).used_ids@.map_values(
                |x: String| x@,
            ).push(self.used_ids@.last()@));
            let s = self.sessions@.last();
            assert(self@ == old(self)@.insert(s.id@, s));
            assert forall|p: int, q: int|
                0 <= p < q < self.sessions@.len() implies self.sessions@[p].id@
                != self.sessions@[q].id@ && self.sessions@[p].sandbox_root@
                != self.sessions@[q].sandbox_root@ by {
                assert(self.sessions@[p] == old(self).sessions@[p]);
                if q < self.sessions@.len() - 1 {
                    assert(self.sessions@[q] == old(self).sessions@[q]);
                } else {
                    assert(old(self).used_ids_seq().contains(old(self).sessions@[p].id@));
                }
            }
            assert forall|k: int|
                0 <= k < self.ports_issued_seq().len() implies (#[trigger] self.ports_issued_seq()[k]
                < self.next_port_spec() || self.next_port_spec() == 0xffff) by {
                assert(old(self).ports_issued_seq()[k] < old(self).next_port_spec() || old(self).next_port_spec() == 0xffff);
            }
            assert forall|j: int| 0 <= j < self.sessions@.len() implies (#[trigger] self.sessions@[j]).wf() by {
                if j < self.sessions@.len() - 1 {
                    assert(self.sessions@[j] == old(self).sessions@[j]);
                    assert(old(self).sessions_seq()[j].wf());
                }
            }
            assert forall|i: int|
                0 <= i < self.sessions_seq().len() implies self.used_ids_seq().contains(
                (#[trigger] self.sessions_seq()[i]).id@,
            ) by {
                if i < self.sessions_seq().len() - 1 {
                    assert(old(self).used_ids_seq().contains(old(self).sessions_seq()[i].id@));
                    let j = choose|j: int|
                        0 <= j < old(self).used_ids_seq().len() && old(self).used_ids_seq()[j]
                            == old(self).sessions_seq()[i].id@;
                    assert(self.used_ids_seq()[j] == old(self).used_ids_seq()[j]);
                } else {
                    assert(self.used_ids_seq().last() == s.id@);
                }
            }
        }
        Ok(response)
    }

    /// Creates a session under a freshly generated random identifier, with
    /// its sandbox root placed under `sandbox_base`.
    pub fn create_session(&mut self, sandbox_base: &str, env: EnvMap, now: u64) -> (r: Result<
        CreateSessionResponse,
        ApiError,
    >)
        requires
            old(self).wf(),
            env.wf(),
        ensures
            final(self).wf(),
            final(self).domain_spec() == old(self).domain_spec(),
            final(self).next_port_spec() == old(self).next_port_spec(),
            final(self).ports_issued_seq() == old(self).ports_issued_seq(),
            match r {
                Ok(resp) => {
                    &&& !old(self).used_ids_seq().contains(resp.session_id@)
                    &&& !old(self)@.contains_key(resp.session_id@)
                    &&& opt_preview_matches(
                        resp.preview_url,
                        old(self).domain_spec(),
                        resp.session_id@,
                    )
                    &&& final(self).used_ids_seq() == old(self).used_ids_seq().push(
                        resp.session_id@,
                    )
                    &&& final(self)@ == old(self)@.insert(
                        resp.session_id@,
                        final(self)@[resp.session_id@],
                    )
                    &&& is_new_session(
                        final(self)@[resp.session_id@],
                        resp.session_id@,
                        sandbox_base@ + "/"@ + resp.session_id@,
                        env@,
                        now,
                        old(self).domain_spec(),
                    )
                    &&& final(self).sessions_seq() == old(self).sessions_seq().push(
                        final(self)@[resp.session_id@],
                    )
                },
                Err(e) => e == ApiError::Internal && *final(self) == *old(self),
            },
    {
        let id = fresh_session_id();
        let mut root = sandbox_base.to_owned();
        root.append("/");
        root.append(id.as_str());
        self.create_session_with_id(id, root, env, now)
    }

    /// Removes a session and hands back the cleanup work: kill its
    /// background PIDs, then remove its sandbox root.
    pub fn delete_session(&mut self, id: &String) -> (r: Result<CleanupTask, ApiError>)
        requires
            old(self).wf(),
        ensures
            final(self).wf(),
            final(self).domain_spec() == old(self).domain_spec(),
            final(self).next_port_spec() == old(self).next_port_spec(),
            final(self).ports_issued_seq() == old(self).ports_issued_seq(),
            final(self).used_ids_seq() == old(self).used_ids_seq(),
            match r {
                Ok(t) => {
                    &&& old(self)@.contains_key(id@)
                    &&& t.id@ == id@
                    &&& t.sandbox_root == old(self)@[id@].sandbox_root
                    &&& t.background_pids == old(self)@[id@].background_pids
                    &&& final(self)@ == old(self)@.remove(id@)
                    &&& final(self).sessions_seq().len() == old(self).sessions_seq().len() - 1
                },
                Err(e) => {
                    &&& e == ApiError::NotFound
                    &&& !old(self)@.contains_key(id@)
                    &&& *final(self) == *old(self)
                },
            },
    {
        match self.find_index(id) {
            Some(i) => {
                proof {
                    lemma_smap_at(self.sessions@, i as int);
                    lemma_smap_remove(self.sessions@, i as int);
                }
                let s = self.sessions.remove(i);
                proof {
            assert forall|k: int|
                0 <= k < self.ports_issued_seq().len() implies (#[trigger] self.ports_issued_seq()[k]
                < self.next_port_spec() || self.next_port_spec() == 0xffff) by {
                assert(old(self).ports_issued_seq()[k] < old(self).next_port_spec() || old(self).next_port_spec() == 0xffff);
            }
                    assert forall|p: int, q: int|
                        0 <= p < q < self.sessions@.len() implies self.sessions@[p].id@
                        != self.sessions@[q].id@ && self.sessions@[p].sandbox_root@
                        != self.sessions@[q].sandbox_root@ by {
                        let a: int = if p < i as int { p } else { p + 1 };
                        let b: int = if q < i as int { q } else { q + 1 };
                        assert(self.sessions@[p] == old(self).sessions@[a]);
                        assert(self.sessions@[q] == old(self).sessions@[b]);
                    }
                    assert forall|j: int|
                        0 <= j < self.sessions_seq().len() implies self.used_ids_seq().contains(
                        (#[trigger] self.sessions_seq()[j]).id@,
                    ) && (#[trigger] self.sessions_seq()[j]).wf() by {
                        if j < i as int {
                            assert(self.sessions_seq()[j] == old(self).sessions_seq()[j]);
                        } else {
                            assert(self.sessions_seq()[j] == old(self).sessions_seq()[j + 1]);
                        }
                    }
                }
                Ok(CleanupTask {
                    id: s.id,
                    sandbox_root: s.sandbox_root,
                    background_pids: s.background_pids,
                })
            },
            None => Err(ApiError::NotFound),
        }
    }

    /// Describes one session; 404 when it is not live.
    pub fn get_session(&self, id: &String, now: u64) -> (r: Result<SessionInfo, ApiError>)
        requires
            self.wf(),
        ensures
            match r {
                Ok(info) => self@.contains_key(id@) && matches_info(info, self@[id@], now),
                Err(e) => e == ApiError::NotFound && !self@.contains_key(id@),
            },
    {
        match self.find_index(id) {
            Some(i) => {
                proof {
                    lemma_smap_at(self.sessions@, i as int);
                }
                Ok(make_session_info(&self.sessions[i], now))
            },
            None => Err(ApiError::NotFound),
        }
    }

    /// Describes every live session.
    pub fn list_sessions(&self, now: u64) -> (r: Vec<SessionInfo>)
        requires
            self.wf(),
        ensures
            r@.len() == self.sessions_seq().len(),
            forall|i: int|
                0 <= i < r@.len() ==> matches_info(#[trigger] r@[i], self.sessions_seq()[i], now),
    {
        let n = self.sessions.len();
        let mut r: Vec<SessionInfo> = Vec::new();
        let mut i: usize = 0;
        while i < n
            invariant
                0 <= i <= n,
                n == self.sessions_seq().len(),
                self.wf(),
                r@.len() == i,
                forall|j: int|
                    0 <= j < i ==> matches_info(#[trigger] r@[j], self.sessions_seq()[j], now),
            decreases n - i,
        {
            r.push(make_session_info(&self.sessions[i], now));
            i = i + 1;
        }
        r
    }

    /// Adds request-supplied variables to a session's environment.
    pub fn set_env(&mut self, id: &String, vars: &EnvMap, now: u64) -> (r: Result<(), ApiError>)
        requires
            old(self).wf(),
            vars.wf(),
        ensures
            final(self).wf(),
            final(self).domain_spec() == old(self).domain_spec(),
            final(self).next_port_spec() == old(self).next_port_spec(),
            final(self).ports_issued_seq() == old(self).ports_issued_seq(),
            final(self).used_ids_seq() == old(self).used_ids_seq(),
            match r {
                Ok(_) => {
                    &&& old(self)@.contains_key(id@)
                    &&& final(self)@ == old(self)@.insert(id@, final(self)@[id@])
                    &&& same_but_env(final(self)@[id@], touched(old(self)@[id@], now))
                    &&& final(self)@[id@].env@ == old(self)@[id@].env@.union_prefer_right(vars@)
                },
                Err(e) => {
                    &&& e == ApiError::NotFound
                    &&& !old(self)@.contains_key(id@)
                    &&& *final(self) == *old(self)
                },
            },
    {
        match self.find_index(id) {
            Some(i) => {
                proof {
                    lemma_smap_at(self.sessions@, i as int);
                }
                let mut s = self.sessions.remove(i);
                s.env.extend(vars);
                if now > s.last_used {
                    s.last_used = now;
                }
                self.sessions.insert(i, s);
                proof {
                    self.lemma_after_update(*old(self), i as int, id@);
                }
                Ok(())
            },
            None => Err(ApiError::NotFound),
        }
    }

    /// Replaces a session's working directory.
    pub fn set_cwd(&mut self, id: &String, cwd: String, now: u64) -> (r: Result<(), ApiError>)
        requires
            old(self).wf(),
        ensures
            final(self).wf(),
            final(self).domain_spec() == old(self).domain_spec(),
            final(self).next_port_spec() == old(self).next_port_spec(),
            final(self).ports_issued_seq() == old(self).ports_issued_seq(),
            final(self).used_ids_seq() == old(self).used_ids_seq(),
            match r {
                Ok(_) => {
                    &&& old(self)@.contains_key(id@)
                    &&& final(self)@ == old(self)@.insert(id@, final(self)@[id@])
                    &&& same_but_cwd(final(self)@[id@], touched(old(self)@[id@], now))
                    &&& final(self)@[id@].cwd@ == cwd@
                },
                Err(e) => {
                    &&& e == ApiError::NotFound
                    &&& !old(self)@.contains_key(id@)
                    &&& *final(self) == *old(self)
                },
            },
    {
        match self.find_index(id) {
            Some(i) => {
                proof {
                    lemma_smap_at(self.sessions@, i as int);
                }
                let mut s = self.sessions.remove(i);
                s.cwd = cwd;
                if now > s.last_used {
                    s.last_used = now;
                }
                self.sessions.insert(i, s);
                proof {
                    self.lemma_after_update(*old(self), i as int, id@);
                }
                Ok(())
            },
            None => Err(ApiError::NotFound),
        }
    }

    /// Shared tail of every handler that replaces the record at `i` with a
    /// well-formed record of the same ID and root: the registry stays
    /// well-formed and the map gains exactly the new record.
    proof fn lemma_after_update(&self, pre: AppState, i: int, id: Seq<char>)
        requires
            pre.wf(),
            0 <= i < pre.sessions_seq().len(),
            pre.sessions_seq()[i].id@ == id,
            self.sessions_seq() =~= pre.sessions_seq().update(i, self.sessions_seq()[i]),
            self.sessions_seq()[i].id@ == id,
            self.sessions_seq()[i].sandbox_root@ == pre.sessions_seq()[i].sandbox_root@,
            self.sessions_seq()[i].wf(),
            self.used_ids_seq() == pre.used_ids_seq(),
            self.next_port_spec() == pre.next_port_spec(),
            self.ports_issued_seq() == pre.ports_issued_seq(),
        ensures
            self.wf(),
            self@ == pre@.insert(id, self@[id]),
            self@.contains_key(id),
            self@[id] == self.sessions_seq()[i],
    {
        let x = self.sessions_seq()[i];
        lemma_smap_update(pre.sessions_seq(), i, x);
        assert(self@ == pre@.insert(id, x));
        assert forall|j: int|
            0 <= j < pre.sessions_seq().len() implies (#[trigger] self.sessions_seq()[j]).id@
            == pre.sessions_seq()[j].id@ && self.sessions_seq()[j].sandbox_root@
            == pre.sessions_seq()[j].sandbox_root@ && self.sessions_seq()[j].wf() by {
            if j != i {
                assert(self.sessions_seq()[j] == pre.sessions_seq()[j]);
                assert(pre.sessions_seq()[j].wf());
            }
        }
        lemma_wf_frame(pre, *self);
    }

    /// Shared first phase of the file handlers: touches the session and
    /// hands back the sandbox root the blocking file work runs under.
    pub fn touch_session(&mut self, id: &String, now: u64) -> (r: Result<String, ApiError>)
        requires
            old(self).wf(),
        ensures
            final(self).wf(),
            final(self).domain_spec() == old(self).domain_spec(),
            final(self).next_port_spec() == old(self).next_port_spec(),
            final(self).ports_issued_seq() == old(self).ports_issued_seq(),
            final(self).used_ids_seq() == old(self).used_ids_seq(),
            match r {
                Ok(root) => {
                    &&& old(self)@.contains_key(id@)
                    &&& root@ == old(self)@[id@].sandbox_root@
                    &&& final(self)@ == old(self)@.insert(id@, touched(old(self)@[id@], now))
                },
                Err(e) => {
                    &&& e == ApiError::NotFound
                    &&& !old(self)@.contains_key(id@)
                    &&& *final(self) == *old(self)
                },
            },
    {
        match self.find_index(id) {
            Some(i) => {
                proof {
                    lemma_smap_at(self.sessions@, i as int);
                }
                let mut s = self.sessions.remove(i);
                if now > s.last_used {
                    s.last_used = now;
                }
                let root = clone_string(&s.sandbox_root);
                self.sessions.insert(i, s);
                proof {
                    self.lemma_after_update(*old(self), i as int, id@);
                    assert(self.sessions_seq()[i as int] == touched(old(self)@[id@], now));
                }
                Ok(root)
            },
            None => Err(ApiError::NotFound),
        }
    }

    /// Phase one of a foreground run: touches the session and hands back
    /// the sandbox root and the fully merged run configuration.
    pub fn run_in_session(&mut self, id: &String, req: RunRequest, now: u64) -> (r: Result<
        SessionRunTask,
        ApiError,
    >)
        requires
            old(self).wf(),
            req.env.wf(),
        ensures
            final(self).wf(),
            final(self).domain_spec() == old(self).domain_spec(),
            final(self).next_port_spec() == old(self).next_port_spec(),
            final(self).ports_issued_seq() == old(self).ports_issued_seq(),
            final(self).used_ids_seq() == old(self).used_ids_seq(),
            match r {
                Ok(t) => {
                    &&& old(self)@.contains_key(id@)
                    &&& final(self)@ == old(self)@.insert(id@, touched(old(self)@[id@], now))
                    &&& t.sandbox_root@ == old(self)@[id@].sandbox_root@
                    &&& t.config.command == req.command
                    &&& t.config.time_ms == req.time
                    &&& t.config.mem_kb == req.mem
                    &&& t.config.fsize_kb == req.fsize
                    &&& t.config.nofile == req.nofile
                    &&& t.config.env.wf()
                    &&& t.config.env@ == old(self)@[id@].env@.union_prefer_right(req.env@)
                    &&& t.config.cwd@ == merged_cwd(req.cwd@, old(self)@[id@].cwd@)
                },
                Err(e) => {
                    &&& e == ApiError::NotFound
                    &&& !old(self)@.contains_key(id@)
                    &&& *final(self) == *old(self)
                },
            },
    {
        match self.find_index(id) {
            Some(i) => {
                proof {
                    lemma_smap_at(self.sessions@, i as int);
                }
                let mut s = self.sessions.remove(i);
                if now > s.last_used {
                    s.last_used = now;
                }
                let root = clone_string(&s.sandbox_root);
                let mut env = s.env.duplicate();
                env.extend(&req.env);
                let cwd = effective_cwd(req.cwd, clone_string(&s.cwd));
                self.sessions.insert(i, s);
                proof {
                    self.lemma_after_update(*old(self), i as int, id@);
                    assert(self.sessions_seq()[i as int] == touched(old(self)@[id@], now));
                }
                Ok(SessionRunTask {
                    sandbox_root: root,
                    config: RunConfig {
                        command: req.command,
                        time_ms: req.time,
                        mem_kb: req.mem,
                        fsize_kb: req.fsize,
                        nofile: req.nofile,
                        env,
                        cwd,
                    },
                })
            },
            None => Err(ApiError::NotFound),
        }
    }

    /// Phase one of a background run: touches the session, picks the port
    /// (the caller's, or a fresh one when the caller sent zero), injects it
    /// into the environment as `PORT` and `VITE_PORT`, and hands back an
    /// unlimited run configuration.
    pub fn run_background(&mut self, id: &String, req: BackgroundRunRequest, now: u64) -> (r:
        Result<BackgroundRunTask, ApiError>)
        requires
            old(self).wf(),
            req.env.wf(),
        ensures
            final(self).wf(),
            final(self).domain_spec() == old(self).domain_spec(),
            final(self).used_ids_seq() == old(self).used_ids_seq(),
            match r {
                Ok(t) => {
                    &&& old(self)@.contains_key(id@)
                    &&& final(self)@ == old(self)@.insert(id@, touched(old(self)@[id@], now))
                    &&& t.sandbox_root@ == old(self)@[id@].sandbox_root@
                    &&& t.config.command == req.command
                    &&& t.config.time_ms == 0
                    &&& t.config.mem_kb == 0
                    &&& t.config.fsize_kb == 0
                    &&& t.config.nofile == 0
                    &&& t.config.cwd@ == merged_cwd(req.cwd@, old(self)@[id@].cwd@)
                    &&& t.config.env.wf()
                    &&& t.config.env@ == old(self)@[id@].env@.union_prefer_right(
                        req.env@,
                    ).insert("VITE_PORT"@, dec_str_of(t.port as nat)).insert(
                        "PORT"@,
                        dec_str_of(t.port as nat),
                    )
                    &&& opt_str_matches(t.preview_url, old(self)@[id@].preview_url)
                    &&& (req.port != 0 ==> t.port == req.port && final(self).next_port_spec()
                        == old(self).next_port_spec() && final(self).ports_issued_seq() == old(self).ports_issued_seq())
                    &&& (req.port == 0 ==> t.port == old(self).next_port_spec() && final(self).next_port_spec() == (if old(self).next_port_spec() < 0xffff {
                        (old(self).next_port_spec() + 1) as u16
                    } else {
                        old(self).next_port_spec()
                    }) && final(self).ports_issued_seq() == old(self).ports_issued_seq().push(
                        t.port,
                    ) && (old(self).next_port_spec() < 0xffff ==> forall|k: int|
                        0 <= k < old(self).ports_issued_seq().len() ==> t.port > old(self).ports_issued_seq()[k]))
                },
                Err(e) => {
                    &&& e == ApiError::NotFound
                    &&& !old(self)@.contains_key(id@)
                    &&& *final(self) == *old(self)
                },
            },
    {
        match self.find_index(id) {
            Some(i) => {
                let port = if req.port == 0 {
                    self.allocate_port()
                } else {
                    req.port
                };
                let ghost mid = *self;
                proof {
                    lemma_smap_at(self.sessions@, i as int);
                }
                let mut s = self.sessions.remove(i);
                if now > s.last_used {
                    s.last_used = now;
                }
                let root = clone_string(&s.sandbox_root);
                let preview_url = clone_opt_string(&s.preview_url);
                let mut env = s.env.duplicate();
                env.extend(&req.env);
                let port_str = u64_to_dec(port as u64);
                env.insert("VITE_PORT".to_owned(), clone_string(&port_str));
                env.insert("PORT".to_owned(), port_str);
                let cwd = effective_cwd(req.cwd, clone_string(&s.cwd));
                self.sessions.insert(i, s);
                proof {
                    self.lemma_after_update(mid, i as int, id@);
                    assert(mid@ == old(self)@);
                    assert(self.sessions_seq()[i as int] == touched(old(self)@[id@], now));
                    assert(self@ == old(self)@.insert(id@, touched(old(self)@[id@], now)));
                }
                Ok(BackgroundRunTask {
                    sandbox_root: root,
                    config: RunConfig {
                        command: req.command,
                        time_ms: 0,
                        mem_kb: 0,
                        fsize_kb: 0,
                        nofile: 0,
                        env,
                        cwd,
                    },
                    port,
                    preview_url,
                })
            },
            None => Err(ApiError::NotFound),
        }
    }

    /// Phase three of a background run: records the spawned PID and the
    /// port. A session deleted between the spawn and this write-back is
    /// reported as not found, and nothing is recorded.
    pub fn track_background(&mut self, id: &String, pid: u32, port: u16) -> (r: Result<
        (),
        ApiError,
    >)
        requires
            old(self).wf(),
        ensures
            final(self).wf(),
            final(self).domain_spec() == old(self).domain_spec(),
            final(self).next_port_spec() == old(self).next_port_spec(),
            final(self).ports_issued_seq() == old(self).ports_issued_seq(),
            final(self).used_ids_seq() == old(self).used_ids_seq(),
            match r {
                Ok(_) => {
                    &&& old(self)@.contains_key(id@)
                    &&& final(self)@ == old(self)@.insert(id@, final(self)@[id@])
                    &&& same_but_bg(final(self)@[id@], old(self)@[id@])
                    &&& final(self)@[id@].last_used == old(self)@[id@].last_used
                    &&& final(self)@[id@].background_pids@ == old(self)@[id@].background_pids@.push(
                        pid,
                    )
                    &&& final(self)@[id@].ports@ == if old(self)@[id@].ports@.contains(port) {
                        old(self)@[id@].ports@
                    } else {
                        old(self)@[id@].ports@.push(port)
                    }
                },
                Err(e) => {
                    &&& e == ApiError::NotFound
                    &&& !old(self)@.contains_key(id@)
                    &&& *final(self) == *old(self)
                },
            },
    {
        match self.find_index(id) {
            Some(i) => {
                proof {
                    lemma_smap_at(self.sessions@, i as int);
                }
                let mut s = self.sessions.remove(i);
                s.background_pids.push(pid);
                if !contains_port(&s.ports, port) {
                    s.ports.push(port);
                    proof {
                        assert forall|p: int, q: int|
                            0 <= p < q < s.ports@.len() implies s.ports@[p] != s.ports@[q] by {
                            assert(s.ports@[p] == old(self)@[id@].ports@[p]);
                            if q < s.ports@.len() - 1 {
                                assert(s.ports@[q] == old(self)@[id@].ports@[q]);
                            } else {
                                assert(!old(self)@[id@].ports@.contains(port));
                            }
                        }
                    }
                }
                self.sessions.insert(i, s);
                proof {
                    self.lemma_after_update(*old(self), i as int, id@);
                }
                Ok(())
            },
            None => Err(ApiError::NotFound),
        }
    }

    /// Forgets a session's background processes: hands back every tracked
    /// PID for signalling and clears both the PID and the port list.
    pub fn kill_background(&mut self, id: &String, now: u64) -> (r: Result<KillTask, ApiError>)
        requires
            old(self).wf(),
        ensures
            final(self).wf(),
            final(self).domain_spec() == old(self).domain_spec(),
            final(self).next_port_spec() == old(self).next_port_spec(),
            final(self).ports_issued_seq() == old(self).ports_issued_seq(),
            final(self).used_ids_seq() == old(self).used_ids_seq(),
            match r {
                Ok(t) => {
                    &&& old(self)@.contains_key(id@)
                    &&& t.pids@ == old(self)@[id@].background_pids@
                    &&& final(self)@ == old(self)@.insert(id@, final(self)@[id@])
                    &&& same_but_bg(final(self)@[id@], touched(old(self)@[id@], now))
                    &&& final(self)@[id@].background_pids@.len() == 0
                    &&& final(self)@[id@].ports@.len() == 0
                },
                Err(e) => {
                    &&& e == ApiError::NotFound
                    &&& !old(self)@.contains_key(id@)
                    &&& *final(self) == *old(self)
                },
            },
    {
        match self.find_index(id) {
            Some(i) => {
                proof {
                    lemma_smap_at(self.sessions@, i as int);
                }
                let mut s = self.sessions.remove(i);
                let pids = clone_pids(&s.background_pids);
                s.background_pids = Vec::new();
                s.ports = Vec::new();
                if now > s.last_used {
                    s.last_used = now;
                }
                self.sessions.insert(i, s);
                proof {
                    self.lemma_after_update(*old(self), i as int, id@);
                }
                Ok(KillTask { pids })
            },
            None => Err(ApiError::NotFound),
        }
    }

    /// Reads what a background status probe needs: the sandbox root that
    /// holds the log, and the tracked PIDs. Purely observational.
    pub fn background_status(&self, id: &String) -> (r: Result<StatusQuery, ApiError>)
        requires
            self.wf(),
        ensures
            match r {
                Ok(q) => {
                    &&& self@.contains_key(id@)
                    &&& q.sandbox_root@ == self@[id@].sandbox_root@
                    &&& q.pids@ == self@[id@].background_pids@
                },
                Err(e) => e == ApiError::NotFound && !self@.contains_key(id@),
            },
    {
        match self.find_index(id) {
            Some(i) => {
                proof {
                    lemma_smap_at(self.sessions@, i as int);
                }
                Ok(StatusQuery {
                    sandbox_root: clone_string(&self.sessions[i].sandbox_root),
                    pids: clone_pids(&self.sessions[i].background_pids),
                })
            },
            None => Err(ApiError::NotFound),
        }
    }

    /// One reaper tick: removes every session idle longer than the TTL and
    /// hands back the cleanup work for each, in their stored order.
    pub fn cleanup_expired_sessions(&mut self, now: u64) -> (r: Vec<CleanupTask>)
        requires
            old(self).wf(),
        ensures
            final(self).wf(),
            final(self).domain_spec() == old(self).domain_spec(),
            final(self).next_port_spec() == old(self).next_port_spec(),
            final(self).ports_issued_seq() == old(self).ports_issued_seq(),
            final(self).used_ids_seq() == old(self).used_ids_seq(),
            final(self).sessions_seq() == live_after(old(self).sessions_seq(), now),
            forall|k: Seq<char>|
                #[trigger] final(self)@.contains_key(k) ==> old(self)@.contains_key(k) && !expired(
                    old(self)@[k],
                    now,
                ) && final(self)@[k] == old(self)@[k],
            forall|k: Seq<char>|
                #[trigger] old(self)@.contains_key(k) && !expired(old(self)@[k], now) ==> final(self)@.contains_key(k),
            r@.len() == reaped_after(old(self).sessions_seq(), now).len(),
            forall|i: int|
                0 <= i < r@.len() ==> (#[trigger] r@[i]).id == reaped_after(
                    old(self).sessions_seq(),
                    now,
                )[i].id && r@[i].sandbox_root == reaped_after(old(self).sessions_seq(), now)[i].sandbox_root
                    && r@[i].background_pids == reaped_after(
                    old(self).sessions_seq(),
                    now,
                )[i].background_pids,
    {
        let ghost orig = self.sessions@;
        let mut kept: Vec<Session> = Vec::new();
        let mut tasks: Vec<CleanupTask> = Vec::new();
        let ghost mut j: int = 0;
        while self.sessions.len() > 0
            invariant
                0 <= j <= orig.len(),
                self.sessions@ =~= orig.skip(j),
                self.used_ids@ == old(self).used_ids@,
                self.next_port == old(self).next_port,
                self.ports_issued@ == old(self).ports_issued@,
                self.preview_domain == old(self).preview_domain,
                kept@ =~= live_after(orig.take(j), now),
                tasks@.len() == reaped_after(orig.take(j), now).len(),
                forall|i: int|
                    0 <= i < tasks@.len() ==> (#[trigger] tasks@[i]).id == reaped_after(
                        orig.take(j),
                        now,
                    )[i].id && tasks@[i].sandbox_root == reaped_after(orig.take(j), now)[i].sandbox_root
                        && tasks@[i].background_pids == reaped_after(
                        orig.take(j),
                        now,
                    )[i].background_pids,
            decreases self.sessions@.len(),
        {
            let s = self.sessions.remove(0);
            proof {
                assert(s == orig[j]);
                assert(self.sessions@ =~= orig.skip(j + 1));
                assert(orig.take(j + 1).drop_last() =~= orig.take(j));
                assert(orig.take(j + 1).last() == orig[j]);
            }
            if now > s.last_used && now - s.last_used > SESSION_TTL_SECS {
                proof {
                    assert(expired(orig[j], now));
                    assert(reaped_after(orig.take(j + 1), now) =~= reaped_after(
                        orig.take(j),
                        now,
                    ).push(orig[j]));
                }
                tasks.push(CleanupTask {
                    id: s.id,
                    sandbox_root: s.sandbox_root,
                    background_pids: s.background_pids,
                });
            } else {
                proof {
                    assert(!expired(orig[j], now));
                    assert(live_after(orig.take(j + 1), now) =~= live_after(
                        orig.take(j),
                        now,
                    ).push(orig[j]));
                }
                kept.push(s);
            }
            proof {
                j = j + 1;
            }
        }
        proof {
            assert(orig.take(j) =~= orig);
        }
        self.sessions = kept;
        proof {
            lemma_live_after_wf(orig, now);
            assert forall|i: int|
                0 <= i < self.sessions_seq().len() implies self.used_ids_seq().contains(
                (#[trigger] self.sessions_seq()[i]).id@,
            ) by {
                assert(seq_has(orig, live_after(orig, now)[i]));
                let k = choose|k: int|
                    0 <= k < orig.len() && orig[k] == live_after(orig, now)[i];
                assert(old(self).used_ids_seq().contains(old(self).sessions_seq()[k].id@));
            }
            assert forall|k: int|
                0 <= k < self.ports_issued_seq().len() implies (#[trigger] self.ports_issued_seq()[k]
                < self.next_port_spec() || self.next_port_spec() == 0xffff) by {
                assert(old(self).ports_issued_seq()[k] < old(self).next_port_spec() || old(self).next_port_spec() == 0xffff);
            }
            assert(self.sessions_seq() == live_after(old(self).sessions_seq(), now));
            assert forall|k: Seq<char>| #[trigger] self@.contains_key(k) implies old(self)@.contains_key(
                k,
            ) && !expired(old(self)@[k], now) && self@[k] == old(self)@[k] by {
                lemma_reap_keeps_exactly_the_active(old(self).sessions_seq(), now, k);
            }
            assert forall|k: Seq<char>|
                #[trigger] old(self)@.contains_key(k) && !expired(
                    old(self)@[k],
                    now,
                ) implies self@.contains_key(k) by {
                lemma_reap_keeps_exactly_the_active(old(self).sessions_seq(), now, k);
            }
        }
        tasks
    }
}

/// Where the preview proxy sends a request, judged from its Host header.
pub enum RouteOutcome {
    /// No preview domain is configured, or the host is not under it.
    NotRouted,
    /// The host names a session that is not live.
    UnknownSession { session_id: String },
    /// Relay to this port on the loopback interface.
    Proxy { port: u16 },
}

impl AppState {
    /// Resolves a Host header to a session and port: hosts of the shape
    /// `<id>.<domain>` route to the session's first registered port (or
    /// the documented fallback), touching the session; everything else is
    /// not found.
    pub fn route_preview(&mut self, host: &String, now: u64) -> (r: RouteOutcome)
        requires
            old(self).wf(),
        ensures
            final(self).wf(),
            final(self).domain_spec() == old(self).domain_spec(),
            final(self).next_port_spec() == old(self).next_port_spec(),
            final(self).ports_issued_seq() == old(self).ports_issued_seq(),
            final(self).used_ids_seq() == old(self).used_ids_seq(),
            match old(self).domain_spec() {
                Option::None => r == RouteOutcome::NotRouted && *final(self) == *old(self),
                Option::Some(d) => match strip_host(host@, d@) {
                    Option::None => r == RouteOutcome::NotRouted && *final(self) == *old(self),
                    Option::Some(id) => {
                        if old(self)@.contains_key(id) {
                            &&& r matches RouteOutcome::Proxy { port } && port
                                == first_port_or_default(old(self)@[id].ports@)
                            &&& final(self)@ == old(self)@.insert(id, touched(old(self)@[id], now))
                        } else {
                            &&& r matches RouteOutcome::UnknownSession { session_id } && session_id@
                                == id
                            &&& *final(self) == *old(self)
                        }
                    },
                },
            },
    {
        let domain = match &self.preview_domain {
            Option::Some(d) => clone_string(d),
            Option::None => {
                return RouteOutcome::NotRouted;
            },
        };
        match host_prefix(host, &domain) {
            Some(id) => {
                match self.find_index(&id) {
                    Some(i) => {
                        proof {
                            lemma_smap_at(self.sessions@, i as int);
                        }
                        let mut s = self.sessions.remove(i);
                        if now > s.last_used {
                            s.last_used = now;
                        }
                        let port = if s.ports.len() > 0 {
                            s.ports[0]
                        } else {
                            DEFAULT_PREVIEW_PORT
                        };
                        self.sessions.insert(i, s);
                        proof {
                            self.lemma_after_update(*old(self), i as int, id@);
                            assert(self.sessions_seq()[i as int] == touched(
                                old(self)@[id@],
                                now,
                            ));
                        }
                        RouteOutcome::Proxy { port }
                    },
                    None => RouteOutcome::UnknownSession { session_id: id },
                }
            },
            None => RouteOutcome::NotRouted,
        }
    }
}

/// Law: session identifiers are never reused. A successful creation
/// demands an identifier absent from `used_ids` and appends it, and no
/// handler ever removes an entry from `used_ids`; so whatever ran in
/// between, the identifiers of two successful creations differ.
pub proof fn lemma_session_ids_unique(
    used_at_first: Seq<Seq<char>>,
    grown: Seq<Seq<char>>,
    id1: Seq<char>,
    id2: Seq<char>,
)
    requires
        !grown.contains(id2),
        used_at_first.push(id1).is_prefix_of(grown),
    ensures
        id1 != id2,
{
    assert(grown[used_at_first.len() as int] == used_at_first.push(id1)[used_at_first.len() as int]);
}

/// Law: no two live sessions share a sandbox root, so each root is owned
/// by exactly one session. (That every root also exists on disk is the
/// duty of the binary that materializes the directory on creation and
/// removes it on destruction.)
pub proof fn lemma_roots_not_shared(st: AppState, i: int, j: int)
    requires
        st.wf(),
        0 <= i < j < st.sessions_seq().len(),
    ensures
        st.sessions_seq()[i].sandbox_root@ != st.sessions_seq()[j].sandbox_root@,
{
}

/// Law: after a successful `delete_session(id)` the registry no longer
/// holds `id`; every handler keyed by a session ID promises `NotFound`
/// exactly when the registry does not hold that ID, so every subsequent
/// handler on `id` reports 404 until the ID is live again.
pub proof fn lemma_deleted_not_found(
    pre: Map<Seq<char>, Session>,
    post: Map<Seq<char>, Session>,
    id: Seq<char>,
)
    requires
        post == pre.remove(id),
    ensures
        !post.contains_key(id),
{
}

/// Law: automatically assigned ports strictly increase. Before the
/// counter saturates, `allocate_port` promises a port above everything it
/// ever issued, so in particular above the previous automatic port. (At
/// saturation the counter repeats the largest port instead of wrapping
/// below the base.)
pub proof fn lemma_auto_ports_increase(issued_before: Seq<u16>, p1: u16, p2: u16)
    requires
        forall|k: int| 0 <= k < issued_before.push(p1).len() ==> p2 > issued_before.push(p1)[k],
    ensures
        p2 > p1,
{
    assert(issued_before.push(p1).last() == p1);
}

/// Whether a session has been idle past the TTL at time `now`.
pub open spec fn expired(s: Session, now: u64) -> bool {
    now > s.last_used + SESSION_TTL_SECS
}

/// The sessions a reaper tick at `now` keeps, in order.
pub open spec fn live_after(s: Seq<Session>, now: u64) -> Seq<Session>
    decreases s.len(),
{
    if s.len() == 0 {
        Seq::empty()
    } else if expired(s.last(), now) {
        live_after(s.drop_last(), now)
    } else {
        live_after(s.drop_last(), now).push(s.last())
    }
}

/// The sessions a reaper tick at `now` removes, in order.
pub open spec fn reaped_after(s: Seq<Session>, now: u64) -> Seq<Session>
    decreases s.len(),
{
    if s.len() == 0 {
        Seq::empty()
    } else if expired(s.last(), now) {
        reaped_after(s.drop_last(), now).push(s.last())
    } else {
        reaped_after(s.drop_last(), now)
    }
}

spec fn seq_has(s: Seq<Session>, x: Session) -> bool {
    exists|k: int| 0 <= k < s.len() && s[k] == x
}

proof fn lemma_live_after_wf(s: Seq<Session>, now: u64)
    requires
        unique_ids(s),
        unique_roots(s),
        forall|j: int| 0 <= j < s.len() ==> (#[trigger] s[j]).wf(),
    ensures
        unique_ids(live_after(s, now)),
        unique_roots(live_after(s, now)),
        forall|j: int| 0 <= j < live_after(s, now).len() ==> (#[trigger] live_after(s, now)[j]).wf(),
        forall|j: int|
            0 <= j < live_after(s, now).len() ==> seq_has(s, #[trigger] live_after(s, now)[j]),
        forall|p: int, q: int|
            #![trigger live_after(s, now)[p], live_after(s, now)[q]]
            0 <= p < q < live_after(s, now).len() ==> exists|a: int, b: int|
                0 <= a < b < s.len() && s[a] == live_after(s, now)[p] && s[b] == live_after(
                    s,
                    now,
                )[q],
    decreases s.len(),
{
    let l = live_after(s, now);
    if s.len() > 0 {
        let dl = s.drop_last();
        assert forall|j: int| 0 <= j < dl.len() implies (#[trigger] dl[j]).wf() by {
            assert(dl[j] == s[j]);
        }
        lemma_live_after_wf(dl, now);
        let ldl = live_after(dl, now);
        assert forall|j: int| 0 <= j < ldl.len() implies seq_has(s, #[trigger] ldl[j]) by {
            assert(seq_has(dl, ldl[j]));
            let k = choose|k: int| 0 <= k < dl.len() && dl[k] == ldl[j];
            assert(s[k] == ldl[j]);
        }
        if !expired(s.last(), now) {
            assert(l == ldl.push(s.last()));
            assert forall|p: int, q: int| #![trigger l[p], l[q]]
                0 <= p < q < l.len() implies exists|a: int, b: int|
                0 <= a < b < s.len() && s[a] == l[p] && s[b] == l[q] by {
                if q < l.len() - 1 {
                    assert(l[p] == ldl[p] && l[q] == ldl[q]);
                    let (a, b) = choose|a: int, b: int|
                        0 <= a < b < dl.len() && dl[a] == ldl[p] && dl[b] == ldl[q];
                    assert(s[a] == l[p] && s[b] == l[q]);
                } else {
                    assert(l[p] == ldl[p]);
                    assert(seq_has(dl, ldl[p]));
                    let a = choose|k: int| 0 <= k < dl.len() && dl[k] == ldl[p];
                    assert(s[a] == l[p] && s[s.len() - 1] == l[q]);
                }
            }
            assert forall|p: int, q: int|
                0 <= p < q < l.len() implies l[p].id@ != l[q].id@ && l[p].sandbox_root@
                != l[q].sandbox_root@ by {
                let (a, b) = choose|a: int, b: int|
                    0 <= a < b < s.len() && s[a] == l[p] && s[b] == l[q];
                assert(s[a].id@ != s[b].id@);
                assert(s[a].sandbox_root@ != s[b].sandbox_root@);
            }
            assert forall|j: int| 0 <= j < l.len() implies (#[trigger] l[j]).wf() by {
                assert(seq_has(s, l[j]));
                let k = choose|k: int| 0 <= k < s.len() && s[k] == l[j];
                assert(s[k].wf());
            }
        }
    }
}

proof fn lemma_live_after_member(s: Seq<Session>, now: u64)
    ensures
        forall|j: int|
            0 <= j < live_after(s, now).len() ==> seq_has(s, #[trigger] live_after(s, now)[j]),
    decreases s.len(),
{
    if s.len() > 0 {
        let dl = s.drop_last();
        lemma_live_after_member(dl, now);
        let l = live_after(s, now);
        assert forall|j: int| 0 <= j < l.len() implies seq_has(s, #[trigger] l[j]) by {
            if expired(s.last(), now) || j < l.len() - 1 {
                assert(l[j] == live_after(dl, now)[j]);
                assert(seq_has(dl, live_after(dl, now)[j]));
                let k = choose|k: int| 0 <= k < dl.len() && dl[k] == live_after(dl, now)[j];
                assert(s[k] == l[j]);
            } else {
                assert(s[s.len() - 1] == l[j]);
            }
        }
    }
}

/// Law: one reaper tick keeps exactly the sessions not yet idle past the
/// TTL, each unchanged, and removes every other one.
pub proof fn lemma_reap_keeps_exactly_the_active(s: Seq<Session>, now: u64, k: Seq<char>)
    requires
        unique_ids(s),
    ensures
        session_map_of(live_after(s, now)).contains_key(k) <==> (session_map_of(s).contains_key(k)
            && !expired(session_map_of(s)[k], now)),
        session_map_of(live_after(s, now)).contains_key(k) ==> session_map_of(live_after(s, now))[k]
            == session_map_of(s)[k],
    decreases s.len(),
{
    let l = live_after(s, now);
    let ml = session_map_of(l);
    let m = session_map_of(s);
    if s.len() == 0 {
    } else {
        let dl = s.drop_last();
        let x = s.last();
        assert forall|p: int, q: int| 0 <= p < q < dl.len() implies dl[p].id@ != dl[q].id@ by {
            assert(dl[p] == s[p] && dl[q] == s[q]);
        }
        lemma_reap_keeps_exactly_the_active(dl, now, k);
        lemma_smap_contains(dl, x.id@);
        assert(!session_map_of(dl).contains_key(x.id@)) by {
            if session_map_of(dl).contains_key(x.id@) {
                let i = choose|i: int| 0 <= i < dl.len() && dl[i].id@ == x.id@;
                assert(s[i].id@ == s[s.len() - 1].id@);
            }
        }
        if expired(x, now) {
            assert(l == live_after(dl, now));
            if k == x.id@ {
                assert(!session_map_of(live_after(dl, now)).contains_key(k)) by {
                    lemma_smap_contains(live_after(dl, now), k);
                    if session_map_of(live_after(dl, now)).contains_key(k) {
                        lemma_live_after_member(dl, now);
                        let j = choose|j: int|
                            0 <= j < live_after(dl, now).len() && live_after(dl, now)[j].id@ == k;
                        assert(seq_has(dl, live_after(dl, now)[j]));
                        let i = choose|i: int| 0 <= i < dl.len() && dl[i] == live_after(dl, now)[j];
                        assert(session_map_of(dl).contains_key(k)) by {
                            lemma_smap_contains(dl, k);
                        }
                    }
                }
                assert(m.contains_key(k) && m[k] == x && expired(m[k], now));
            } else {
                assert(m.contains_key(k) <==> session_map_of(dl).contains_key(k));
                assert(m.contains_key(k) ==> m[k] == session_map_of(dl)[k]);
            }
        } else {
            assert(l == live_after(dl, now).push(x));
            assert(l.drop_last() =~= live_after(dl, now));
            assert(ml == session_map_of(live_after(dl, now)).insert(x.id@, x));
            if k == x.id@ {
                assert(m.contains_key(k) && m[k] == x && !expired(m[k], now));
                assert(ml.contains_key(k) && ml[k] == x);
            } else {
                assert(ml.contains_key(k) <==> session_map_of(live_after(dl, now)).contains_key(k));
            }
        }
    }
}

/// The subset of `pids` whose kill signal was delivered, in order.
pub open spec fn killed_spec(pids: Seq<u32>, delivered: Seq<bool>) -> Seq<u32>
    decreases pids.len(),
{
    if pids.len() == 0 || pids.len() != delivered.len() {
        Seq::empty()
    } else if delivered.last() {
        killed_spec(pids.drop_last(), delivered.drop_last()).push(pids.last())
    } else {
        killed_spec(pids.drop_last(), delivered.drop_last())
    }
}

/// What a kill request reports: the PIDs that accepted the signal, and how
/// many were cleared from the session in total.
pub struct KillReport {
    pub killed: Vec<u32>,
    pub total: usize,
}

/// Summarizes signal delivery: `delivered[i]` says whether the kill of
/// `pids[i]` succeeded; PIDs whose signal failed are omitted from the
/// report but were still cleared from the session.
pub fn kill_report(pids: &Vec<u32>, delivered: &Vec<bool>) -> (r: KillReport)
    requires
        pids@.len() == delivered@.len(),
    ensures
        r.killed@ == killed_spec(pids@, delivered@),
        r.total == pids@.len(),
{
    let n = pids.len();
    let mut killed: Vec<u32> = Vec::new();
    let mut i: usize = 0;
    while i < n
        invariant
            0 <= i <= n,
            n == pids@.len(),
            n == delivered@.len(),
            killed@ =~= killed_spec(pids@.take(i as int), delivered@.take(i as int)),
        decreases n - i,
    {
        proof {
            assert(pids@.take(i + 1 as int).drop_last() =~= pids@.take(i as int));
            assert(delivered@.take(i + 1 as int).drop_last() =~= delivered@.take(i as int));
        }
        if delivered[i] {
            killed.push(pids[i]);
        }
        i = i + 1;
    }
    proof {
        assert(pids@.take(n as int) =~= pids@);
        assert(delivered@.take(n as int) =~= delivered@);
    }
    KillReport { killed, total: n }
}

/// The alive flag of one tracked background process.
pub struct PidStatus {
    pub pid: u32,
    pub alive: bool,
}

/// Pairs each PID with the liveness the probe reported for it.
pub fn pair_liveness(pids: &Vec<u32>, alive: &Vec<bool>) -> (r: Vec<PidStatus>)
    requires
        pids@.len() == alive@.len(),
    ensures
        r@.len() == pids@.len(),
        forall|i: int|
            0 <= i < r@.len() ==> (#[trigger] r@[i]).pid == pids@[i] && r@[i].alive == alive@[i],
{
    let n = pids.len();
    let mut r: Vec<PidStatus> = Vec::new();
    let mut i: usize = 0;
    while i < n
        invariant
            0 <= i <= n,
            n == pids@.len(),
            n == alive@.len(),
            r@.len() == i,
            forall|k: int|
                0 <= k < i ==> (#[trigger] r@[k]).pid == pids@[k] && r@[k].alive == alive@[k],
        decreases n - i,
    {
        r.push(PidStatus { pid: pids[i], alive: alive[i] });
        i = i + 1;
    }
    r
}

/// Whether `p` occurs in `v`.
pub fn contains_port(v: &Vec<u16>, p: u16) -> (r: bool)
    ensures
        r == v@.contains(p),
{
    let n = v.len();
    let mut i: usize = 0;
    while i < n
        invariant
            0 <= i <= n,
            n == v@.len(),
            forall|j: int| 0 <= j < i ==> v@[j] != p,
        decreases n - i,
    {
        if v[i] == p {
            return true;
        }
        i = i + 1;
    }
    proof {
        assert(forall|j: int| 0 <= j < v@.len() ==> v@[j] != p);
    }
    false
}

impl Default for AppState {
    /// Same as `AppState::new`.
    fn default() -> (r: AppState)
        ensures
            r.wf(),
            r@ == Map::<Seq<char>, Session>::empty(),
            r.sessions_seq().len() == 0,
            r.used_ids_seq().len() == 0,
            r.next_port_spec() == PORT_RANGE_START,
            r.domain_spec() is None,
            r.ports_issued_seq().len() == 0,
    {
        AppState::new()
    }
}

/// Fields untouched when only the environment and `last_used` change.
pub open spec fn same_but_env(a: Session, b: Session) -> bool {
    &&& a.id == b.id
    &&& a.sandbox_root == b.sandbox_root
    &&& a.cwd == b.cwd
    &&& a.created_at == b.created_at
    &&& a.last_used == b.last_used
    &&& a.preview_url == b.preview_url
    &&& a.ports == b.ports
    &&& a.status == b.status
    &&& a.background_pids == b.background_pids
}

/// Fields untouched when only the working directory and `last_used` change.
pub open spec fn same_but_cwd(a: Session, b: Session) -> bool {
    &&& a.id == b.id
    &&& a.sandbox_root == b.sandbox_root
    &&& a.env == b.env
    &&& a.created_at == b.created_at
    &&& a.last_used == b.last_used
    &&& a.preview_url == b.preview_url
    &&& a.ports == b.ports
    &&& a.status == b.status
    &&& a.background_pids == b.background_pids
}

/// Fields untouched when only ports, background PIDs and `last_used` change.
pub open spec fn same_but_bg(a: Session, b: Session) -> bool {
    &&& a.id == b.id
    &&& a.sandbox_root == b.sandbox_root
    &&& a.env == b.env
    &&& a.cwd == b.cwd
    &&& a.created_at == b.created_at
    &&& a.last_used == b.last_used
    &&& a.preview_url == b.preview_url
    &&& a.status == b.status
}

proof fn lemma_wf_frame(a: AppState, b: AppState)
    requires
        a.wf(),
        b.sessions_seq().len() == a.sessions_seq().len(),
        forall|j: int|
            0 <= j < a.sessions_seq().len() ==> (#[trigger] b.sessions_seq()[j]).id@
                == a.sessions_seq()[j].id@ && b.sessions_seq()[j].sandbox_root@
                == a.sessions_seq()[j].sandbox_root@ && b.sessions_seq()[j].wf(),
        b.used_ids_seq() == a.used_ids_seq(),
        b.next_port_spec() == a.next_port_spec(),
        b.ports_issued_seq() == a.ports_issued_seq(),
    ensures
        b.wf(),
{
    assert forall|p: int, q: int|
        0 <= p < q < b.sessions_seq().len() implies b.sessions_seq()[p].id@
        != b.sessions_seq()[q].id@ && b.sessions_seq()[p].sandbox_root@
        != b.sessions_seq()[q].sandbox_root@ by {
        assert(a.sessions_seq()[p].id@ != a.sessions_seq()[q].id@);
        assert(a.sessions_seq()[p].sandbox_root@ != a.sessions_seq()[q].sandbox_root@);
    }
    assert forall|i: int|
        0 <= i < b.sessions_seq().len() implies b.used_ids_seq().contains(
        (#[trigger] b.sessions_seq()[i]).id@,
    ) by {
        assert(a.used_ids_seq().contains(a.sessions_seq()[i].id@));
    }
    assert forall|k: int|
        0 <= k < b.ports_issued_seq().len() implies (#[trigger] b.ports_issued_seq()[k]
        < b.next_port_spec() || b.next_port_spec() == 0xffff) by {
        assert(a.ports_issued_seq()[k] < a.next_port_spec() || a.next_port_spec() == 0xffff);
    }
}

/// Builds `https://<id>.<domain>`.
fn build_preview_url(id: &String, domain: &String) -> (r: String)
    ensures
        r@ == preview_url_of(id@, domain@),
{
    let mut u = "https://".to_owned();
    u.append(id.as_str());
    u.append(".");
    u.append(domain.as_str());
    proof {
        assert(u@ =~= preview_url_of(id@, domain@));
    }
    u
}

} // verus!
